//! The library's guarantees that relate several operations, each stated and
//! proved as a lemma over the same specification functions the operations'
//! own contracts use.

use vstd::prelude::*;

use crate::lines::line_ending;
use crate::lines::split_lines_spec;
use crate::lines::join_lines;
use crate::lines::strip_cr;
use crate::lines::lemma_split_join_identity;
use crate::parser::contains_char;
use crate::parser::is_ws;
use crate::parser::lemma_first_index_of_is;
use crate::parser::lemma_ws_prefix_len_is;
use crate::parser::lemma_ws_prefix_len_le;
use crate::parser::lemma_ws_suffix_len_is;
use crate::parser::lemma_ws_suffix_len_le;
use crate::parser::line_entry;
use crate::parser::line_key;
use crate::parser::trim_spec;
use crate::parser::ws_prefix_len;
use crate::parser::ws_suffix_len;
use crate::properties::Mutations;
use crate::properties::appended_text;
use crate::properties::m_has;
use crate::properties::m_find;
use crate::properties::m_value;
use crate::properties::m_remove;
use crate::properties::m_set;
use crate::properties::m_wf;
use crate::properties::lemma_m_find_bounds;
use crate::properties::lemma_m_find_is;
use crate::properties::render_spec;

verus! {

// ---------------------------------------------------------------------------
// Round-trip identity of rendering without mutations
// ---------------------------------------------------------------------------

/// Rendering with an empty mutation set touches no line: the output is the
/// lines joined back with the line terminator.
pub proof fn lemma_render_no_mutations(lines: Seq<Seq<char>>)
    ensures
        render_spec(lines, Seq::empty()) == join_lines(lines),
    decreases lines.len(),
{
    let nothing = Seq::<(Seq<char>, Option<Seq<char>>)>::empty();
    if lines.len() == 0 {
    } else {
        lemma_render_no_mutations(lines.drop_first());
        match line_key(lines[0]) {
            Some(k) => {
                assert(!m_has(nothing, k));
            },
            None => {},
        }
    }
}

/// Round-trip identity: rendering a file's content with an empty mutation
/// set reproduces the content byte for byte, provided it already follows
/// the crate's line convention (no carriage returns, a terminator after the
/// last line). Content in another convention comes back with each line kept
/// and only its terminator normalized.
pub proof fn lemma_round_trip_identity(content: Seq<char>)
    requires
        forall|i: int| 0 <= i < content.len() ==> content[i] != '\r',
        content.len() > 0 ==> content.last() == '\n',
    ensures
        render_spec(split_lines_spec(content), Seq::empty()) == content,
{
    lemma_render_no_mutations(split_lines_spec(content));
    lemma_split_join_identity(content);
}

// ---------------------------------------------------------------------------
// Well-formed keys and values, and how a rendered entry line parses
// ---------------------------------------------------------------------------

/// A piece of text that stays on one physical line: no terminator and no
/// carriage return.
pub open spec fn plain_text(s: Seq<char>) -> bool {
    forall|i: int| 0 <= i < s.len() ==> s[i] != '\n' && s[i] != '\r'
}

/// Every line in the listing is plain, as lines read from a file are.
pub open spec fn plain_lines(lines: Seq<Seq<char>>) -> bool {
    forall|i: int| 0 <= i < lines.len() ==> plain_text(#[trigger] lines[i])
}

/// A key that a rendered entry line hands back unchanged: non-empty,
/// already trimmed, not starting like a comment, without `=`, and on one
/// line. Keys outside this shape corrupt the file's line structure — a
/// documented limitation of the format, not checked at run time.
pub open spec fn wf_entry_key(k: Seq<char>) -> bool {
    &&& k.len() > 0
    &&& trim_spec(k) == k
    &&& k[0] != '#'
    &&& k[0] != '!'
    &&& !contains_char(k, '=')
    &&& plain_text(k)
}

/// A value that a rendered entry line hands back unchanged: already
/// trimmed and on one line. A value may contain `=`.
pub open spec fn wf_entry_value(v: Seq<char>) -> bool {
    &&& trim_spec(v) == v
    &&& plain_text(v)
}

/// The body of a rendered entry line, without the terminator.
pub open spec fn entry_body(k: Seq<char>, v: Seq<char>) -> Seq<char> {
    k + seq![' ', '=', ' '] + v
}

/// Text is exactly its own trim when it has no leading and no trailing
/// whitespace.
pub proof fn lemma_trim_identity(s: Seq<char>)
    ensures
        trim_spec(s) == s <==> (ws_prefix_len(s) == 0 && ws_suffix_len(s) == 0),
{
    lemma_ws_prefix_len_le(s);
    let rest = s.subrange(ws_prefix_len(s) as int, s.len() as int);
    lemma_ws_suffix_len_le(rest);
    if ws_prefix_len(s) == 0 && ws_suffix_len(s) == 0 {
        assert(rest =~= s);
        assert(trim_spec(s) =~= s);
    }
    if trim_spec(s) == s {
        assert(trim_spec(s).len() == s.len() - ws_prefix_len(s) - ws_suffix_len(rest));
        assert(ws_prefix_len(s) == 0 && ws_suffix_len(rest) == 0);
        assert(rest =~= s);
    }
}

/// Untrimmed, non-empty text neither starts nor ends with whitespace.
pub proof fn lemma_untrimmed_ends(s: Seq<char>)
    requires
        trim_spec(s) == s,
        s.len() > 0,
    ensures
        !is_ws(s[0]),
        !is_ws(s.last()),
{
    lemma_trim_identity(s);
    assert(ws_prefix_len(s) == 0);
    assert(ws_suffix_len(s) == 0);
}

/// A rendered entry line parses back to exactly its key and value,
/// provided both are well formed.
pub proof fn lemma_entry_body_parse(k: Seq<char>, v: Seq<char>)
    requires
        wf_entry_key(k),
        wf_entry_value(v),
    ensures
        line_entry(entry_body(k, v)) == Some((k, v)),
        line_key(entry_body(k, v)) == Some(k),
{
    let t = entry_body(k, v);
    let kl = k.len() as int;
    lemma_untrimmed_ends(k);
    assert(t[0] == k[0]);
    assert(!is_ws(t[0]));
    lemma_ws_prefix_len_is(t, 0);
    let tt = trim_spec(t);
    if v.len() > 0 {
        lemma_untrimmed_ends(v);
        assert(t.last() == v.last());
        lemma_ws_suffix_len_is(t, t.len() as int);
        assert(ws_suffix_len(t) == 0);
        lemma_trim_identity(t);
        assert(tt == t);
    } else {
        assert(t =~= k + seq![' ', '=', ' ']);
        assert(t[kl + 1] == '=');
        assert(t[kl + 2] == ' ');
        lemma_ws_suffix_len_is(t, kl + 2);
        assert(ws_suffix_len(t) == 1);
        let rest = t.subrange(ws_prefix_len(t) as int, t.len() as int);
        assert(rest =~= t);
        assert(ws_suffix_len(rest) == 1);
        assert(tt =~= k + seq![' ', '=']);
    }
    // The first `=` of the trimmed line sits right after the key.
    assert(forall|j: int| 0 <= j < k.len() ==> k[j] != '=') by {
        assert(!contains_char(k, '='));
    }
    assert(tt[kl] == ' ');
    assert(tt[kl + 1] == '=');
    assert(forall|j: int| 0 <= j < kl + 1 ==> tt[j] != '=');
    lemma_first_index_of_is(tt, '=', kl + 1);
    assert(contains_char(tt, '='));
    // The key side trims back to the key.
    let key_part = tt.subrange(0, kl + 1);
    assert(key_part =~= k + seq![' ']);
    lemma_ws_prefix_len_is(key_part, 0);
    lemma_ws_suffix_len_is(key_part, kl);
    let key_rest = key_part.subrange(
        ws_prefix_len(key_part) as int,
        key_part.len() as int,
    );
    assert(key_rest =~= key_part);
    assert(trim_spec(key_part) =~= k);
    assert(tt[0] == k[0]);
    assert(line_key(t) == Some(k));
    // The value side trims back to the value.
    let val_part = tt.subrange(kl + 2, tt.len() as int);
    if v.len() > 0 {
        assert(val_part =~= seq![' '] + v);
        lemma_untrimmed_ends(v);
        lemma_ws_prefix_len_is(val_part, 1);
        let val_rest = val_part.subrange(1, val_part.len() as int);
        assert(val_rest =~= v);
        lemma_ws_suffix_len_is(val_rest, v.len() as int);
        assert(trim_spec(val_part) =~= v);
    } else {
        assert(val_part.len() == 0);
        assert(trim_spec(val_part) =~= v);
    }
    assert(line_entry(t) == Some((k, v)));
}

// ---------------------------------------------------------------------------
// Reading rendered content back, line by line
// ---------------------------------------------------------------------------

/// Splitting content that starts with one plain line and its terminator
/// yields that line followed by the split of the remainder.
pub proof fn lemma_split_prepend_line(x: Seq<char>, rest: Seq<char>)
    requires
        plain_text(x),
    ensures
        split_lines_spec(x + line_ending() + rest) == seq![x] + split_lines_spec(rest),
{
    let w = x + line_ending() + rest;
    let xl = x.len() as int;
    assert(w[xl] == '\n');
    assert(forall|j: int| 0 <= j < xl ==> w[j] == x[j] && w[j] != '\n');
    lemma_first_index_of_is(w, '\n', xl);
    assert(w.len() > 0);
    let seg = w.subrange(0, xl);
    assert(seg =~= x);
    if x.len() > 0 {
        assert(x.last() != '\r');
    }
    assert(strip_cr(x) == x);
    assert(w.subrange(xl + 1, w.len() as int) =~= rest);
    assert(split_lines_spec(w) =~= seq![x] + split_lines_spec(rest));
}

/// The value of the last line that parses as an entry with key `k`, if any:
/// what reading the file top to bottom with last-occurrence-wins resolves
/// `k` to.
pub open spec fn lines_lookup(lines: Seq<Seq<char>>, k: Seq<char>) -> Option<Seq<char>>
    decreases lines.len(),
{
    if lines.len() == 0 {
        None
    } else {
        match line_entry(lines.last()) {
            Some(kv) => if kv.0 == k {
                Some(kv.1)
            } else {
                lines_lookup(lines.drop_last(), k)
            },
            None => lines_lookup(lines.drop_last(), k),
        }
    }
}

/// Looking a key up across one prepended line: a later occurrence wins; the
/// first line only answers when no later line carries the key.
pub proof fn lemma_lines_lookup_prepend(x: Seq<char>, lines: Seq<Seq<char>>, k: Seq<char>)
    ensures
        lines_lookup(seq![x] + lines, k) == if lines_lookup(lines, k) is Some {
            lines_lookup(lines, k)
        } else {
            match line_entry(x) {
                Some(kv) => if kv.0 == k {
                    Some(kv.1)
                } else {
                    None
                },
                None => None,
            }
        },
    decreases lines.len(),
{
    let whole = seq![x] + lines;
    if lines.len() == 0 {
        assert(whole.len() == 1);
        assert(whole.last() == x);
        assert(whole.drop_last() =~= Seq::<Seq<char>>::empty());
        assert(lines_lookup(whole.drop_last(), k) is None);
    } else {
        assert(whole.last() == lines.last());
        assert(whole.drop_last() =~= seq![x] + lines.drop_last());
        lemma_lines_lookup_prepend(x, lines.drop_last(), k);
        match line_entry(lines.last()) {
            Some(kv) => {
                if kv.0 == k {
                    assert(lines_lookup(whole, k) == Some(kv.1));
                    assert(lines_lookup(lines, k) == Some(kv.1));
                } else {
                    assert(lines_lookup(whole, k) == lines_lookup(
                        seq![x] + lines.drop_last(),
                        k,
                    ));
                    assert(lines_lookup(lines, k) == lines_lookup(lines.drop_last(), k));
                }
            },
            None => {
                assert(lines_lookup(whole, k) == lines_lookup(seq![x] + lines.drop_last(), k));
                assert(lines_lookup(lines, k) == lines_lookup(lines.drop_last(), k));
            },
        }
    }
}

// ---------------------------------------------------------------------------
// Duplicate-key resolution: the snapshot is the last-occurrence lookup
// ---------------------------------------------------------------------------

/// Looking up a key after an upsert: the upserted key answers with the new
/// value, every other key as before.
pub proof fn lemma_e_lookup_upsert(
    es: crate::properties::Entries,
    k: Seq<char>,
    v: Seq<char>,
    q: Seq<char>,
)
    ensures
        crate::properties::e_lookup(crate::properties::e_upsert(es, k, v), q) == if q == k {
            Some(v)
        } else {
            crate::properties::e_lookup(es, q)
        },
{
    crate::properties::lemma_e_find_bounds(es, k);
    crate::properties::lemma_e_find_bounds(es, q);
    let up = crate::properties::e_upsert(es, k, v);
    let fk = crate::properties::e_find(es, k) as int;
    if fk < es.len() {
        // Replaced in place: the key sequence is unchanged.
        assert(up =~= es.update(fk, (k, v)));
        assert(forall|j: int| 0 <= j < up.len() ==> up[j].0 == es[j].0);
        if q == k {
            crate::properties::lemma_e_find_is(up, k, fk);
        } else {
            let fq = crate::properties::e_find(es, q) as int;
            if fq < es.len() {
                assert(fq != fk);
                crate::properties::lemma_e_find_is(up, q, fq);
            } else {
                crate::properties::lemma_e_find_is(up, q, up.len() as int);
            }
        }
    } else {
        // Appended: earlier keys answer as before, the new key at the end.
        assert(up =~= es.push((k, v)));
        if q == k {
            crate::properties::lemma_e_find_is(up, k, es.len() as int);
        } else {
            let fq = crate::properties::e_find(es, q) as int;
            if fq < es.len() {
                crate::properties::lemma_e_find_is(up, q, fq);
            } else {
                crate::properties::lemma_e_find_is(up, q, up.len() as int);
            }
        }
    }
}

/// Duplicate-key resolution: the snapshot of a file's lines answers every
/// key with the value of its last occurrence — for a file with the same key
/// twice, the later entry wins.
pub proof fn lemma_snapshot_last_wins(lines: Seq<Seq<char>>, k: Seq<char>)
    ensures
        crate::properties::e_lookup(crate::properties::snapshot_entries(lines), k)
            == lines_lookup(lines, k),
    decreases lines.len(),
{
    if lines.len() == 0 {
    } else {
        lemma_snapshot_last_wins(lines.drop_last(), k);
        match line_entry(lines.last()) {
            Some(kv) => {
                lemma_e_lookup_upsert(
                    crate::properties::snapshot_entries(lines.drop_last()),
                    kv.0,
                    kv.1,
                    k,
                );
            },
            None => {},
        }
    }
}

// ---------------------------------------------------------------------------
// Helper facts about mutation sets
// ---------------------------------------------------------------------------

/// A mutation set holds a key exactly when some pair carries it.
pub proof fn lemma_m_has_exists(m: Mutations, k: Seq<char>)
    ensures
        m_has(m, k) <==> exists|i: int| 0 <= i < m.len() && m[i].0 == k,
{
    lemma_m_find_bounds(m, k);
}

/// With unique keys, any pair carrying `k` is the pair `m_find` marks.
pub proof fn lemma_m_wf_find(m: Mutations, k: Seq<char>, i: int)
    requires
        m_wf(m),
        0 <= i < m.len(),
        m[i].0 == k,
    ensures
        m_find(m, k) == i,
        m_has(m, k),
        m_value(m, k) == m[i].1,
{
    assert(forall|j: int| 0 <= j < i ==> m[j].0 != k);
    lemma_m_find_is(m, k, i);
}

/// Removing the pair for one key: the key is gone, every other key keeps
/// its pending mutation, uniqueness of keys survives, and every remaining
/// pair stood in the set before.
pub proof fn lemma_m_remove_props(m: Mutations, k: Seq<char>)
    requires
        m_wf(m),
        m_has(m, k),
    ensures
        m_wf(m_remove(m, k)),
        !m_has(m_remove(m, k), k),
        m_remove(m, k).len() == m.len() - 1,
        forall|j: int| 0 <= j < m.len() - 1 ==> exists|i: int|
            0 <= i < m.len() && #[trigger] m_remove(m, k)[j] == m[i],
        forall|q: Seq<char>| q != k ==> (m_has(m_remove(m, k), q) <==> m_has(m, q)),
        forall|q: Seq<char>| q != k && m_has(m, q) ==> m_value(m_remove(m, k), q) == m_value(
            m,
            q,
        ),
    decreases m.len(),
{
    lemma_m_find_bounds(m, k);
    let idx = m_find(m, k) as int;
    let rem = m.remove(idx);
    assert(m_remove(m, k) == rem);
    assert(forall|j: int| 0 <= j < idx ==> rem[j] == m[j]);
    assert(forall|j: int| idx <= j < m.len() - 1 ==> rem[j] == m[j + 1]);
    assert(m_wf(rem));
    assert forall|j: int| 0 <= j < m.len() - 1 implies exists|i: int|
        0 <= i < m.len() && #[trigger] rem[j] == m[i] by {
        if j < idx {
            assert(rem[j] == m[j]);
        } else {
            assert(rem[j] == m[j + 1]);
        }
    }
    assert forall|j: int| 0 <= j < rem.len() implies rem[j].0 != k by {
        if j < idx {
            assert(rem[j] == m[j]);
        } else {
            assert(rem[j] == m[j + 1]);
        }
    }
    lemma_m_has_exists(rem, k);
    assert forall|q: Seq<char>| q != k implies (m_has(rem, q) <==> m_has(m, q)) by {
        lemma_m_has_exists(rem, q);
        lemma_m_has_exists(m, q);
        if m_has(m, q) {
            let i = choose|i: int| 0 <= i < m.len() && m[i].0 == q;
            assert(i != idx);
            if i < idx {
                assert(rem[i] == m[i]);
            } else {
                assert(rem[i - 1] == m[i]);
            }
        }
        if m_has(rem, q) {
            let j = choose|j: int| 0 <= j < rem.len() && rem[j].0 == q;
            if j < idx {
                assert(rem[j] == m[j]);
            } else {
                assert(rem[j] == m[j + 1]);
            }
        }
    }
    assert forall|q: Seq<char>| q != k && m_has(m, q) implies m_value(rem, q) == m_value(
        m,
        q,
    ) by {
        lemma_m_find_bounds(m, q);
        let i = m_find(m, q) as int;
        assert(i != idx);
        if i < idx {
            assert(rem[i] == m[i]);
            lemma_m_wf_find(rem, q, i);
        } else {
            assert(rem[i - 1] == m[i]);
            lemma_m_wf_find(rem, q, i - 1);
        }
        lemma_m_wf_find(m, q, i);
    }
}

/// Upserting a key: the key now maps to the new mutation, uniqueness of
/// keys survives, and every pair either stood in the set before or is the
/// upserted pair.
pub proof fn lemma_m_set_props(m: Mutations, k: Seq<char>, val: Option<Seq<char>>)
    requires
        m_wf(m),
    ensures
        m_wf(m_set(m, k, val)),
        m_has(m_set(m, k, val), k),
        m_value(m_set(m, k, val), k) == val,
        forall|j: int| 0 <= j < m_set(m, k, val).len() ==> (#[trigger] m_set(m, k, val)[j] == (
            k,
            val,
        ) || exists|i: int| 0 <= i < m.len() && m_set(m, k, val)[j] == m[i]),
{
    lemma_m_find_bounds(m, k);
    let up = m_set(m, k, val);
    if m_has(m, k) {
        let idx = m_find(m, k) as int;
        assert(up == m.update(idx, (k, val)));
        assert(forall|j: int| 0 <= j < up.len() && j != idx ==> up[j] == m[j]);
        assert(forall|j: int| 0 <= j < up.len() ==> up[j].0 == m[j].0);
        assert(m_wf(up));
        lemma_m_wf_find(up, k, idx);
    } else {
        assert(up == m.push((k, val)));
        assert(forall|j: int| 0 <= j < m.len() ==> up[j] == m[j]);
        assert(forall|j: int| 0 <= j < m.len() ==> m[j].0 != k);
        assert(m_wf(up));
        lemma_m_wf_find(up, k, m.len() as int);
    }
}

/// Appending a pair for a fresh key leaves every other key's lookup, and
/// the pair found for it, unchanged.
pub proof fn lemma_m_push_other(m: Mutations, x: (Seq<char>, Option<Seq<char>>), q: Seq<char>)
    requires
        x.0 != q,
    ensures
        m_has(m.push(x), q) <==> m_has(m, q),
        m_has(m, q) ==> m_find(m.push(x), q) == m_find(m, q) && m_value(m.push(x), q)
            == m_value(m, q),
        !m_has(m, q) ==> m_find(m.push(x), q) == m.len() + 1,
{
    lemma_m_find_bounds(m, q);
    let up = m.push(x);
    assert(forall|j: int| 0 <= j < m.len() ==> up[j] == m[j]);
    if m_has(m, q) {
        let i = m_find(m, q) as int;
        lemma_m_find_is(up, q, i);
    } else {
        assert(forall|j: int| 0 <= j < up.len() ==> up[j].0 != q);
        lemma_m_find_is(up, q, up.len() as int);
    }
}

/// A tombstone appended to the mutation set adds nothing to the appended
/// text.
pub proof fn lemma_appended_push_tombstone(m: Mutations, k: Seq<char>)
    ensures
        appended_text(m.push((k, None))) == appended_text(m),
    decreases m.len(),
{
    let up = m.push((k, None));
    if m.len() == 0 {
        assert(up[0].1 is None);
        assert(up.drop_first() =~= Seq::<(Seq<char>, Option<Seq<char>>)>::empty());
        assert(appended_text(up.drop_first()) =~= Seq::<char>::empty());
        assert(appended_text(up) =~= appended_text(m));
    } else {
        assert(up[0] == m[0]);
        assert(up.drop_first() =~= m.drop_first().push((k, None)));
        lemma_appended_push_tombstone(m.drop_first(), k);
        assert(appended_text(up) =~= appended_text(m));
    }
}

// ---------------------------------------------------------------------------
// What a rendered file resolves a key to
// ---------------------------------------------------------------------------

/// Every key and value in the mutation set is well formed, so each pair's
/// rendered entry line parses back to exactly that pair.
pub open spec fn wf_mutations_text(m: Mutations) -> bool {
    forall|i: int| 0 <= i < m.len() ==> wf_entry_key((#[trigger] m[i]).0) && (m[i].1 is Some
        ==> wf_entry_value(m[i].1->0))
}

/// An entry line built from plain text is plain.
pub proof fn lemma_entry_body_plain(k: Seq<char>, v: Seq<char>)
    requires
        plain_text(k),
        plain_text(v),
    ensures
        plain_text(entry_body(k, v)),
{
    let body = entry_body(k, v);
    let kl = k.len() as int;
    assert forall|i: int| 0 <= i < body.len() implies body[i] != '\n' && body[i] != '\r' by {
        if i < kl {
            assert(body[i] == k[i]);
        } else if i < kl + 3 {
            assert(body[i] == ' ' || body[i] == '=');
        } else {
            assert(body[i] == v[i - kl - 3]);
        }
    }
}

/// Dropping the first pair keeps the set's well-formed text and unique
/// keys.
proof fn lemma_m_drop_first(m: Mutations)
    requires
        m.len() > 0,
    ensures
        m_wf(m) ==> m_wf(m.drop_first()),
        wf_mutations_text(m) ==> wf_mutations_text(m.drop_first()),
{
    let rest = m.drop_first();
    assert(forall|i: int| 0 <= i < rest.len() ==> rest[i] == m[i + 1]);
}

/// The appended text of a mutation set without the key `k` never resolves
/// `k`.
pub proof fn lemma_appended_lookup_none(m: Mutations, k: Seq<char>)
    requires
        wf_mutations_text(m),
        forall|i: int| 0 <= i < m.len() ==> (#[trigger] m[i]).0 != k,
    ensures
        lines_lookup(split_lines_spec(appended_text(m)), k) is None,
    decreases m.len(),
{
    if m.len() == 0 {
        assert(appended_text(m) == Seq::<char>::empty());
        assert(split_lines_spec(appended_text(m)) =~= Seq::<Seq<char>>::empty());
    } else {
        let rest = m.drop_first();
        lemma_m_drop_first(m);
        assert(forall|i: int| 0 <= i < rest.len() ==> (#[trigger] rest[i]) == m[i + 1]);
        lemma_appended_lookup_none(rest, k);
        match m[0].1 {
            Some(v0) => {
                let k0 = m[0].0;
                let body = entry_body(k0, v0);
                lemma_entry_body_plain(k0, v0);
                assert(appended_text(m) =~= body + line_ending() + appended_text(rest));
                lemma_split_prepend_line(body, appended_text(rest));
                lemma_lines_lookup_prepend(body, split_lines_spec(appended_text(rest)), k);
                lemma_entry_body_parse(k0, v0);
                assert(k0 != k);
            },
            None => {
                assert(appended_text(m) =~= appended_text(rest));
            },
        }
    }
}

/// The appended text of a mutation set resolves `k` to its pending
/// replacement value.
pub proof fn lemma_appended_lookup_found(m: Mutations, k: Seq<char>, v: Seq<char>)
    requires
        m_wf(m),
        wf_mutations_text(m),
        m_has(m, k),
        m_value(m, k) == Some(v),
    ensures
        lines_lookup(split_lines_spec(appended_text(m)), k) == Some(v),
    decreases m.len(),
{
    lemma_m_find_bounds(m, k);
    let rest = m.drop_first();
    lemma_m_drop_first(m);
    assert(forall|i: int| 0 <= i < rest.len() ==> (#[trigger] rest[i]) == m[i + 1]);
    if m[0].0 == k {
        assert(m_find(m, k) == 0);
        let v0 = m[0].1->0;
        assert(v0 == v);
        let body = entry_body(k, v0);
        lemma_entry_body_plain(k, v0);
        assert(appended_text(m) =~= body + line_ending() + appended_text(rest));
        lemma_split_prepend_line(body, appended_text(rest));
        lemma_lines_lookup_prepend(body, split_lines_spec(appended_text(rest)), k);
        assert(forall|i: int| 0 <= i < rest.len() ==> (#[trigger] rest[i]).0 != k);
        lemma_appended_lookup_none(rest, k);
        lemma_entry_body_parse(k, v0);
    } else {
        assert(m_find(m, k) == 1 + m_find(rest, k));
        assert(m_has(rest, k));
        assert(m_value(rest, k) == m_value(m, k));
        lemma_appended_lookup_found(rest, k, v);
        match m[0].1 {
            Some(v0) => {
                let k0 = m[0].0;
                let body = entry_body(k0, v0);
                lemma_entry_body_plain(k0, v0);
                assert(appended_text(m) =~= body + line_ending() + appended_text(rest));
                lemma_split_prepend_line(body, appended_text(rest));
                lemma_lines_lookup_prepend(body, split_lines_spec(appended_text(rest)), k);
            },
            None => {
                assert(appended_text(m) =~= appended_text(rest));
            },
        }
    }
}

/// A rendered file never resolves a key that neither the lines nor the
/// mutation set mention.
pub proof fn lemma_render_lookup_none(lines: Seq<Seq<char>>, m: Mutations, k: Seq<char>)
    requires
        m_wf(m),
        wf_mutations_text(m),
        plain_lines(lines),
        forall|i: int| 0 <= i < lines.len() ==> line_key(#[trigger] lines[i]) != Some(k),
        !m_has(m, k),
    ensures
        lines_lookup(split_lines_spec(render_spec(lines, m)), k) is None,
    decreases lines.len(),
{
    if lines.len() == 0 {
        lemma_m_has_exists(m, k);
        assert(forall|i: int| 0 <= i < m.len() ==> (#[trigger] m[i]).0 != k);
        lemma_appended_lookup_none(m, k);
    } else {
        let line = lines[0];
        let rest_lines = lines.drop_first();
        assert(forall|i: int| 0 <= i < rest_lines.len() ==> (#[trigger] rest_lines[i]) == lines[
            i + 1
        ]);
        let lk = line_key(line);
        if lk is Some && m_has(m, lk->0) {
            let k2 = lk->0;
            assert(k2 != k);
            lemma_m_find_bounds(m, k2);
            lemma_m_remove_props(m, k2);
            let rem = m_remove(m, k2);
            assert forall|j: int| 0 <= j < rem.len() implies wf_entry_key(
                (#[trigger] rem[j]).0,
            ) && (rem[j].1 is Some ==> wf_entry_value(rem[j].1->0)) by {
                let i = choose|i: int| 0 <= i < m.len() && rem[j] == m[i];
                assert(wf_entry_key(m[i].0));
            }
            lemma_render_lookup_none(rest_lines, rem, k);
            match m_value(m, k2) {
                Some(v2) => {
                    let idx = m_find(m, k2) as int;
                    assert(m[idx].0 == k2 && m[idx].1 == Some(v2));
                    assert(wf_entry_key(k2) && wf_entry_value(v2));
                    let body = entry_body(k2, v2);
                    lemma_entry_body_plain(k2, v2);
                    assert(render_spec(lines, m) =~= body + line_ending() + render_spec(
                        rest_lines,
                        rem,
                    ));
                    lemma_split_prepend_line(body, render_spec(rest_lines, rem));
                    lemma_lines_lookup_prepend(
                        body,
                        split_lines_spec(render_spec(rest_lines, rem)),
                        k,
                    );
                    lemma_entry_body_parse(k2, v2);
                },
                None => {
                    assert(render_spec(lines, m) =~= render_spec(rest_lines, rem));
                },
            }
        } else {
            assert(render_spec(lines, m) =~= line + line_ending() + render_spec(
                rest_lines,
                m,
            ));
            assert(plain_text(line));
            lemma_render_lookup_none(rest_lines, m, k);
            lemma_split_prepend_line(line, render_spec(rest_lines, m));
            lemma_lines_lookup_prepend(line, split_lines_spec(render_spec(rest_lines, m)), k);
            match line_entry(line) {
                Some(kv) => {
                    assert(line_key(line) == Some(kv.0));
                    assert(kv.0 != k);
                },
                None => {},
            }
        }
    }
}

/// A rendered file resolves a key with a pending replacement mutation to
/// the replacement value, provided the file mentions the key on at most
/// one line.
pub proof fn lemma_render_lookup_found(
    lines: Seq<Seq<char>>,
    m: Mutations,
    k: Seq<char>,
    v: Seq<char>,
)
    requires
        m_wf(m),
        wf_mutations_text(m),
        plain_lines(lines),
        m_has(m, k),
        m_value(m, k) == Some(v),
        forall|i: int, j: int| 0 <= i < j < lines.len() ==> !(line_key(#[trigger] lines[i])
            == Some(k) && line_key(#[trigger] lines[j]) == Some(k)),
    ensures
        lines_lookup(split_lines_spec(render_spec(lines, m)), k) == Some(v),
    decreases lines.len(),
{
    if lines.len() == 0 {
        lemma_appended_lookup_found(m, k, v);
    } else {
        let line = lines[0];
        let rest_lines = lines.drop_first();
        assert(forall|i: int| 0 <= i < rest_lines.len() ==> (#[trigger] rest_lines[i]) == lines[
            i + 1
        ]);
        let lk = line_key(line);
        if lk is Some && m_has(m, lk->0) {
            let k2 = lk->0;
            lemma_m_find_bounds(m, k2);
            lemma_m_remove_props(m, k2);
            let rem = m_remove(m, k2);
            assert forall|j: int| 0 <= j < rem.len() implies wf_entry_key(
                (#[trigger] rem[j]).0,
            ) && (rem[j].1 is Some ==> wf_entry_value(rem[j].1->0)) by {
                let i = choose|i: int| 0 <= i < m.len() && rem[j] == m[i];
                assert(wf_entry_key(m[i].0));
            }
            if k2 == k {
                // The line that carries the key is rewritten to the new value;
                // no later line and no remaining mutation mentions the key.
                assert(m_value(m, k) == Some(v));
                let idx = m_find(m, k) as int;
                assert(m[idx].0 == k && m[idx].1 == Some(v));
                assert(wf_entry_key(k) && wf_entry_value(v));
                let body = entry_body(k, v);
                lemma_entry_body_plain(k, v);
                assert(render_spec(lines, m) =~= body + line_ending() + render_spec(
                    rest_lines,
                    rem,
                ));
                assert forall|i: int| 0 <= i < rest_lines.len() implies line_key(
                    #[trigger] rest_lines[i],
                ) != Some(k) by {
                    assert(rest_lines[i] == lines[i + 1]);
                    assert(!(line_key(lines[0]) == Some(k) && line_key(lines[i + 1]) == Some(
                        k,
                    )));
                }
                lemma_render_lookup_none(rest_lines, rem, k);
                lemma_split_prepend_line(body, render_spec(rest_lines, rem));
                lemma_lines_lookup_prepend(
                    body,
                    split_lines_spec(render_spec(rest_lines, rem)),
                    k,
                );
                lemma_entry_body_parse(k, v);
            } else {
                assert(m_has(rem, k) && m_value(rem, k) == Some(v));
                lemma_render_lookup_found(rest_lines, rem, k, v);
                match m_value(m, k2) {
                    Some(v2) => {
                        let idx = m_find(m, k2) as int;
                        assert(m[idx].0 == k2 && m[idx].1 == Some(v2));
                        assert(wf_entry_key(k2) && wf_entry_value(v2));
                        let body = entry_body(k2, v2);
                        lemma_entry_body_plain(k2, v2);
                        assert(render_spec(lines, m) =~= body + line_ending() + render_spec(
                            rest_lines,
                            rem,
                        ));
                        lemma_split_prepend_line(body, render_spec(rest_lines, rem));
                        lemma_lines_lookup_prepend(
                            body,
                            split_lines_spec(render_spec(rest_lines, rem)),
                            k,
                        );
                    },
                    None => {
                        assert(render_spec(lines, m) =~= render_spec(rest_lines, rem));
                    },
                }
            }
        } else {
            assert(render_spec(lines, m) =~= line + line_ending() + render_spec(
                rest_lines,
                m,
            ));
            assert(plain_text(line));
            lemma_render_lookup_found(rest_lines, m, k, v);
            lemma_split_prepend_line(line, render_spec(rest_lines, m));
            lemma_lines_lookup_prepend(line, split_lines_spec(render_spec(rest_lines, m)), k);
        }
    }
}

// ---------------------------------------------------------------------------
// Set-then-snapshot, and remove idempotence
// ---------------------------------------------------------------------------

/// Set-then-snapshot: after an upsert of `(k, v)`, rendering the file and
/// reading the rendered content back resolves `k` to `v` — for any well
/// formed key and value, any file whose lines mention `k` at most once,
/// and any pending mutations with well formed text. (A file that already
/// holds `k` on two lines keeps its later, untouched occurrence, which
/// then wins the read-back: such files are excluded here.)
pub proof fn lemma_set_then_snapshot(
    lines: Seq<Seq<char>>,
    m: Mutations,
    k: Seq<char>,
    v: Seq<char>,
)
    requires
        m_wf(m),
        wf_mutations_text(m),
        plain_lines(lines),
        wf_entry_key(k),
        wf_entry_value(v),
        forall|i: int, j: int| 0 <= i < j < lines.len() ==> !(line_key(#[trigger] lines[i])
            == Some(k) && line_key(#[trigger] lines[j]) == Some(k)),
    ensures
        crate::properties::e_lookup(
            crate::properties::snapshot_entries(
                split_lines_spec(render_spec(lines, m_set(m, k, Some(v)))),
            ),
            k,
        ) == Some(v),
{
    lemma_m_set_props(m, k, Some(v));
    let m2 = m_set(m, k, Some(v));
    assert forall|j: int| 0 <= j < m2.len() implies wf_entry_key((#[trigger] m2[j]).0) && (
    m2[j].1 is Some ==> wf_entry_value(m2[j].1->0)) by {
        if m2[j] == (k, Some(v)) {
        } else {
            let i = choose|i: int| 0 <= i < m.len() && m2[j] == m[i];
            assert(wf_entry_key(m[i].0));
        }
    }
    lemma_render_lookup_found(lines, m2, k, v);
    lemma_snapshot_last_wins(split_lines_spec(render_spec(lines, m2)), k);
}

/// Remove idempotence: a tombstone for a key that neither the file nor the
/// pending mutations mention changes nothing — the rendered content is the
/// same, and no tombstone line ever appears.
pub proof fn lemma_remove_missing_key(lines: Seq<Seq<char>>, m: Mutations, k: Seq<char>)
    requires
        m_wf(m),
        !m_has(m, k),
        forall|i: int| 0 <= i < lines.len() ==> line_key(#[trigger] lines[i]) != Some(k),
    ensures
        render_spec(lines, m_set(m, k, None)) == render_spec(lines, m),
    decreases lines.len(),
{
    lemma_m_find_bounds(m, k);
    let up = m.push((k, None));
    assert(m_set(m, k, None) == up);
    if lines.len() == 0 {
        lemma_appended_push_tombstone(m, k);
    } else {
        let line = lines[0];
        let rest_lines = lines.drop_first();
        assert(forall|i: int| 0 <= i < rest_lines.len() ==> (#[trigger] rest_lines[i]) == lines[
            i + 1
        ]);
        let lk = line_key(line);
        match lk {
            Some(k2) => {
                assert(k2 != k);
                lemma_m_push_other(m, (k, None), k2);
                if m_has(m, k2) {
                    lemma_m_find_bounds(m, k2);
                    let idx = m_find(m, k2) as int;
                    assert(m_find(up, k2) == idx);
                    assert(m_value(up, k2) == m_value(m, k2));
                    assert(m_remove(up, k2) =~= m_remove(m, k2).push((k, None)));
                    lemma_m_remove_props(m, k2);
                    lemma_remove_missing_key(rest_lines, m_remove(m, k2), k);
                    assert(m_set(m_remove(m, k2), k, None) == m_remove(m, k2).push((k, None)));
                } else {
                    assert(!m_has(up, k2));
                    lemma_remove_missing_key(rest_lines, m, k);
                }
            },
            None => {
                lemma_remove_missing_key(rest_lines, m, k);
            },
        }
    }
}

} // verus!
