//! Splitting file content into physical lines and joining lines back into
//! content.
//!
//! Splitting follows the convention of reading a text file line by line: each
//! `\n` ends a line, a `\r` directly before the `\n` is dropped, and a final
//! line without a terminator still counts. Joining appends the fixed line
//! terminator after every line.

use vstd::prelude::*;

use crate::parser::contains_char;
use crate::parser::first_index_of;
use crate::parser::lemma_first_index_of_is;
use crate::parser::find_char;

verus! {

/// The line terminator this crate writes on rewrite. It is fixed per
/// build, not detected per file; a build for a host that expects
/// Windows-style terminators would carry `\r\n` here instead.
pub open spec fn line_ending() -> Seq<char> {
    seq!['\n']
}

/// The line terminator as a string slice.
pub fn line_ending_str() -> (r: &'static str)
    ensures
        r@ == line_ending(),
{
    let s = "\n";
    proof {
        reveal_strlit("\n");
        assert(s@ =~= line_ending());
    }
    s
}

/// `s` without a single trailing carriage return, if it has one.
pub open spec fn strip_cr(s: Seq<char>) -> Seq<char> {
    if s.len() > 0 && s.last() == '\r' {
        s.drop_last()
    } else {
        s
    }
}

/// The physical lines of `content`: the segments between `\n` terminators,
/// each without its terminator and without a `\r` directly before it.
pub open spec fn split_lines_spec(content: Seq<char>) -> Seq<Seq<char>>
    decreases content.len(),
{
    if content.len() == 0 {
        seq![]
    } else {
        let i = first_index_of(content, '\n') as int;
        if i < content.len() {
            seq![strip_cr(content.subrange(0, i))] + split_lines_spec(
                content.subrange(i + 1, content.len() as int),
            )
        } else {
            seq![strip_cr(content)]
        }
    }
}

/// The lines joined back into file content, each line followed by the line
/// terminator.
pub open spec fn join_lines(lines: Seq<Seq<char>>) -> Seq<char>
    decreases lines.len(),
{
    if lines.len() == 0 {
        seq![]
    } else {
        lines[0] + line_ending() + join_lines(lines.drop_first())
    }
}

/// Splits `content` into its physical lines.
pub fn split_lines(content: &str) -> (r: Vec<String>)
    ensures
        r.deep_view() == split_lines_spec(content@),
{
    let mut r: Vec<String> = Vec::new();
    let n = content.unicode_len();
    let mut pos: usize = 0;
    proof {
        assert(content@.subrange(0, n as int) =~= content@);
    }
    while pos < n
        invariant
            n == content@.len(),
            0 <= pos <= n,
            split_lines_spec(content@) =~= r.deep_view() + split_lines_spec(
                content@.subrange(pos as int, n as int),
            ),
        decreases n - pos,
    {
        let ghost prev_dv = r.deep_view();
        let rest = content.substring_char(pos, n);
        let seg_end: usize = match find_char(rest, '\n') {
            Some(i) => i,
            None => {
                proof {
                    lemma_first_index_of_is(rest@, '\n', rest@.len() as int);
                }
                rest.unicode_len()
            },
        };
        let seg = rest.substring_char(0, seg_end);
        let seg_len = seg.unicode_len();
        let line = if seg_len > 0 && seg.get_char(seg_len - 1) == '\r' {
            seg.substring_char(0, seg_len - 1)
        } else {
            seg
        };
        proof {
            assert(line@ =~= strip_cr(rest@.subrange(0, seg_end as int)));
        }
        r.push(line.to_owned());
        proof {
            assert(r.deep_view() =~= prev_dv.push(line@));
        }
        let ghost old_pos = pos as int;
        if seg_end < rest.unicode_len() {
            pos = pos + seg_end + 1;
        } else {
            pos = pos + seg_end;
        }
        proof {
            let whole = content@.subrange(old_pos, n as int);
            assert(rest@ == whole);
            if seg_end < whole.len() {
                assert(whole.subrange(seg_end as int + 1, whole.len() as int) =~= content@
                    .subrange(pos as int, n as int));
                assert(split_lines_spec(whole) == seq![strip_cr(whole.subrange(0, seg_end as int))]
                    + split_lines_spec(content@.subrange(pos as int, n as int)));
            } else {
                assert(whole.subrange(0, seg_end as int) =~= whole);
                assert(split_lines_spec(whole) == seq![strip_cr(whole)]);
                assert(content@.subrange(pos as int, n as int).len() == 0);
                assert(split_lines_spec(content@.subrange(pos as int, n as int)) =~= Seq::<
                    Seq<char>,
                >::empty());
            }
            assert(split_lines_spec(content@) =~= r.deep_view() + split_lines_spec(
                content@.subrange(pos as int, n as int),
            ));
        }
    }
    proof {
        assert(content@.subrange(pos as int, n as int).len() == 0);
        assert(split_lines_spec(content@) =~= r.deep_view());
    }
    r
}

/// Splitting content into lines and joining the lines back reproduces the
/// content exactly, provided the content already uses the crate's line
/// convention: no carriage returns, and a terminator after the last line.
pub proof fn lemma_split_join_identity(content: Seq<char>)
    requires
        forall|k: int| 0 <= k < content.len() ==> content[k] != '\r',
        content.len() > 0 ==> content.last() == '\n',
    ensures
        join_lines(split_lines_spec(content)) == content,
    decreases content.len(),
{
    if content.len() == 0 {
    } else {
        let i = first_index_of(content, '\n') as int;
        assert(content.last() == '\n');
        lemma_first_index_of_bounds(content, '\n');
        assert(i < content.len());
        let seg = content.subrange(0, i);
        let rest = content.subrange(i + 1, content.len() as int);
        assert(strip_cr(seg) == seg);
        if rest.len() > 0 {
            assert(rest.last() == content.last());
        }
        lemma_split_join_identity(rest);
        let sl = split_lines_spec(content);
        assert(sl[0] == seg);
        assert(sl.drop_first() =~= split_lines_spec(rest));
        assert(join_lines(split_lines_spec(content)) =~= seg + line_ending() + rest);
        assert(seg + line_ending() + rest =~= content);
    }
}

/// `first_index_of` stays within bounds, marks an occurrence when one exists,
/// and nothing before it matches.
pub proof fn lemma_first_index_of_bounds(s: Seq<char>, c: char)
    ensures
        first_index_of(s, c) <= s.len(),
        contains_char(s, c) ==> first_index_of(s, c) < s.len() && s[first_index_of(s, c) as int]
            == c,
        forall|k: int| 0 <= k < first_index_of(s, c) ==> s[k] != c,
    decreases s.len(),
{
    if s.len() == 0 {
    } else if s[0] == c {
    } else {
        let rest = s.drop_first();
        lemma_first_index_of_bounds(rest, c);
        assert(forall|k: int| 0 <= k < rest.len() ==> rest[k] == s[k + 1]);
        assert forall|k: int| 0 <= k < first_index_of(s, c) implies s[k] != c by {
            if k > 0 {
                assert(rest[k - 1] != c);
            }
        }
        if contains_char(s, c) {
            let w = choose|w: int| 0 <= w < s.len() && s[w] == c;
            assert(rest[w - 1] == c);
            assert(contains_char(rest, c));
        }
    }
}

} // verus!
