//! Parsing the tabular output of the host's service query tool: a header
//! line, then one line of fields separated by runs of at least two spaces
//! (fields themselves may contain single spaces).

use vstd::prelude::*;

use vstd::utf8::valid_utf8;
use vstd::utf8::decode_utf8;

use crate::codec::bytes_to_string;
use crate::parser::contains_char;
use crate::parser::find_char;
use crate::parser::first_index_of;
use crate::parser::is_ws;
use crate::parser::is_ws_char;
use crate::parser::trim;
use crate::parser::trim_spec;

verus! {

/// The fields of one output line, walked character by character with the
/// word collected so far: leading whitespace is skipped, a whitespace
/// character right after another whitespace character ends the word (so a
/// single space stays inside a field), and the final word counts when its
/// trimmed text is non-empty.
pub open spec fn wmic_fields_rec(s: Seq<char>, cur: Seq<char>) -> Seq<Seq<char>>
    decreases s.len(),
{
    if s.len() == 0 {
        if cur.len() > 0 && trim_spec(cur).len() > 0 {
            seq![trim_spec(cur)]
        } else {
            seq![]
        }
    } else {
        let c = s[0];
        if is_ws(c) && cur.len() == 0 {
            wmic_fields_rec(s.drop_first(), cur)
        } else if is_ws(c) && is_ws(cur.last()) {
            seq![trim_spec(cur)] + wmic_fields_rec(s.drop_first(), seq![])
        } else {
            wmic_fields_rec(s.drop_first(), cur.push(c))
        }
    }
}

/// The fields parsed out of one line of the tool's output.
pub open spec fn wmic_fields(line: Seq<char>) -> Seq<Seq<char>> {
    wmic_fields_rec(line, seq![])
}

/// What the output decodes to after its header line: everything past the
/// first line terminator.
pub open spec fn wmic_data_line(output: Seq<u8>) -> Seq<char> {
    let text = decode_utf8(output);
    text.skip(first_index_of(text, '\n') as int + 1)
}

/// Splits the tool's raw output into its fields: drops the header line,
/// then cuts the rest at every run of at least two whitespace characters.
/// The output must be UTF-8 text with a header line; the caller checks
/// both before handing it in.
pub fn get_wmic_output_as_list(wmic_output: Vec<u8>) -> (r: Vec<String>)
    requires
        valid_utf8(wmic_output@),
        contains_char(decode_utf8(wmic_output@), '\n'),
    ensures
        r.deep_view() == wmic_fields(wmic_data_line(wmic_output@)),
{
    let ghost output_bytes = wmic_output@;
    let text = match bytes_to_string(wmic_output) {
        Ok(s) => s,
        Err(_) => {
            proof {
                assert(false);
            }
            String::new()
        },
    };
    let n = text.as_str().unicode_len();
    let header_end = match find_char(text.as_str(), '\n') {
        Some(i) => i,
        None => {
            proof {
                assert(false);
            }
            0
        },
    };
    let line = text.as_str().substring_char(header_end + 1, n);
    let ghost lv = line@;
    proof {
        assert(lv =~= wmic_data_line(output_bytes));
    }
    let ln = line.unicode_len();
    let mut acc: Vec<String> = Vec::new();
    let mut start: usize = 0;
    let mut j: usize = 0;
    proof {
        assert(lv.skip(0) =~= lv);
        assert(lv.subrange(0, 0) =~= Seq::<char>::empty());
    }
    while j < ln
        invariant
            ln == lv.len(),
            line@ == lv,
            0 <= start <= j <= ln,
            wmic_fields(lv) == acc.deep_view() + wmic_fields_rec(
                lv.skip(j as int),
                lv.subrange(start as int, j as int),
            ),
        decreases ln - j,
    {
        let ghost cur = lv.subrange(start as int, j as int);
        let ghost rest = lv.skip(j as int);
        proof {
            assert(rest[0] == lv[j as int]);
            assert(rest.drop_first() =~= lv.skip(j as int + 1));
        }
        let c = line.get_char(j);
        if is_ws_char(c) && start == j {
            start = j + 1;
            proof {
                assert(lv.subrange(start as int, j as int + 1) =~= cur);
            }
        } else if is_ws_char(c) && start < j && is_ws_char(line.get_char(j - 1)) {
            let ghost acc_prev = acc.deep_view();
            let word = trim(line.substring_char(start, j));
            acc.push(word.to_owned());
            start = j + 1;
            proof {
                assert(cur.last() == lv[j as int - 1]);
                assert(acc.deep_view() =~= acc_prev.push(trim_spec(cur)));
                assert(lv.subrange(start as int, j as int + 1) =~= Seq::<char>::empty());
                assert(acc_prev + (seq![trim_spec(cur)] + wmic_fields_rec(
                    lv.skip(j as int + 1),
                    Seq::<char>::empty(),
                )) =~= acc.deep_view() + wmic_fields_rec(
                    lv.skip(j as int + 1),
                    Seq::<char>::empty(),
                ));
            }
        } else {
            proof {
                if start < j {
                    assert(cur.last() == lv[j as int - 1]);
                }
                assert(lv.subrange(start as int, j as int + 1) =~= cur.push(lv[j as int]));
            }
        }
        j = j + 1;
    }
    proof {
        assert(lv.skip(ln as int).len() == 0);
    }
    if start < ln {
        let ghost acc_prev = acc.deep_view();
        let ghost cur = lv.subrange(start as int, ln as int);
        let word = trim(line.substring_char(start, ln));
        if word.unicode_len() > 0 {
            acc.push(word.to_owned());
            proof {
                assert(acc.deep_view() =~= acc_prev.push(trim_spec(cur)));
            }
        } else {
            proof {
                assert(acc.deep_view() + wmic_fields_rec(
                    lv.skip(ln as int),
                    cur,
                ) =~= acc.deep_view());
            }
        }
    } else {
        proof {
            let cur = lv.subrange(start as int, ln as int);
            assert(cur.len() == 0);
            assert(acc.deep_view() + wmic_fields_rec(lv.skip(ln as int), cur) =~= acc.deep_view());
        }
    }
    proof {
        assert(acc.deep_view() =~= wmic_fields(wmic_data_line(output_bytes)));
    }
    acc
}

} // verus!
