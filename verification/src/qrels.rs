//! Reading relevance judgments: whitespace-separated lines whose
//! third field is the external document id and whose fourth is an
//! integer relevance level; lines beginning with '#' are comments.

use crate::tok::{chars_vec, digits_value, parse_usize, string_from_chars};
use vstd::prelude::*;

verus! {

/// Whether a character counts as whitespace.
pub uninterp spec fn char_ws(c: char) -> bool;

/// Relies on char::is_whitespace: a fixed property of the character.
#[verifier::external_body]
fn is_ws_char(c: char) -> (r: bool)
    ensures
        r == char_ws(c),
{
    c.is_whitespace()
}

/// The maximal non-whitespace runs, given the run gathered so far.
pub open spec fn ws_split(s: Seq<char>, cur: Seq<char>) -> Seq<Seq<char>>
    decreases s.len(),
{
    if s.len() == 0 {
        if cur.len() >= 1 {
            seq![cur]
        } else {
            Seq::empty()
        }
    } else if !char_ws(s[0]) {
        ws_split(s.skip(1), cur.push(s[0]))
    } else {
        (if cur.len() >= 1 {
            seq![cur]
        } else {
            Seq::empty()
        }) + ws_split(s.skip(1), Seq::empty())
    }
}

/// The whitespace-separated fields of a line.
pub open spec fn qrels_fields(line: Seq<char>) -> Seq<Seq<char>> {
    ws_split(line, Seq::empty())
}

/// The integer value of a relevance field: an optional minus sign,
/// then decimal digits.
pub open spec fn parse_rel(f: Seq<char>) -> Option<int> {
    if f.len() >= 1 && f[0] == '-' {
        match digits_value(f.skip(1)) {
            Option::Some(v) => Option::Some(-(v as int)),
            Option::None => Option::None,
        }
    } else {
        match digits_value(f) {
            Option::Some(v) => Option::Some(v as int),
            Option::None => Option::None,
        }
    }
}

/// Cut a line into its whitespace-separated fields.
fn split_fields(chars: &Vec<char>) -> (out: Vec<Vec<char>>)
    ensures
        out.deep_view() == ws_split(chars@, Seq::empty()),
{
    let n = chars.len();
    let mut out: Vec<Vec<char>> = Vec::new();
    let mut cur: Vec<char> = Vec::new();
    let mut i: usize = 0;
    proof {
        assert(chars@.skip(0) =~= chars@);
        assert(out.deep_view() =~= Seq::<Seq<char>>::empty());
    }
    while i < n
        invariant
            n == chars@.len(),
            0 <= i <= n,
            out.deep_view() + ws_split(chars@.skip(i as int), cur@) =~= ws_split(
                chars@,
                Seq::empty(),
            ),
        decreases n - i,
    {
        let c = chars[i];
        let ghost rem = chars@.skip(i as int);
        proof {
            assert(rem[0] == chars@[i as int]);
            assert(rem.skip(1) =~= chars@.skip(i + 1));
        }
        if !is_ws_char(c) {
            cur.push(c);
            proof {
                assert(cur@.drop_last().push(rem[0]) =~= cur@);
            }
        } else {
            let ghost pre_out = out.deep_view();
            if cur.len() >= 1 {
                let ghost cv = cur@;
                out.push(cur);
                proof {
                    assert(out.deep_view().last() =~= cv);
                    assert(out.deep_view() =~= pre_out.push(cv));
                    assert(ws_split(rem, cv) == seq![cv] + ws_split(rem.skip(1), Seq::empty()));
                    assert(pre_out.push(cv) + ws_split(rem.skip(1), Seq::empty()) =~= pre_out
                        + ws_split(rem, cv));
                }
                cur = Vec::new();
            } else {
                proof {
                    assert(ws_split(rem, cur@) == Seq::<Seq<char>>::empty() + ws_split(
                        rem.skip(1),
                        Seq::empty(),
                    ));
                    assert(Seq::<Seq<char>>::empty() + ws_split(rem.skip(1), Seq::empty())
                        =~= ws_split(rem.skip(1), Seq::empty()));
                }
                cur.clear();
            }
        }
        i += 1;
    }
    let ghost rem = chars@.skip(n as int);
    proof {
        assert(rem =~= Seq::<char>::empty());
    }
    if cur.len() >= 1 {
        let ghost pre_out = out.deep_view();
        let ghost cv = cur@;
        out.push(cur);
        proof {
            assert(out.deep_view().last() =~= cv);
            assert(out.deep_view() =~= pre_out.push(cv));
            assert(ws_split(rem, cv) == seq![cv]);
            assert(pre_out + seq![cv] =~= pre_out.push(cv));
        }
    } else {
        proof {
            assert(ws_split(rem, cur@) =~= Seq::<Seq<char>>::empty());
            assert(out.deep_view() + Seq::<Seq<char>>::empty() =~= out.deep_view());
        }
    }
    out
}

/// What reading a qrels line must yield: nothing for comments, short
/// lines, unreadable levels and levels outside i32; otherwise the
/// third field and the parsed fourth.
pub open spec fn qrels_line_result(line: Seq<char>, r: Option<(String, i32)>) -> bool {
    let fs = qrels_fields(line);
    let comment = line.len() > 0 && line[0] == '#';
    if comment || fs.len() < 4 {
        r is None
    } else {
        match parse_rel(fs[3]) {
            Option::Some(v) => if -0x8000_0000 <= v <= 0x7fff_ffff {
                r matches Some(p) && p.0@ == fs[2] && p.1 == v
            } else {
                r is None
            },
            Option::None => r is None,
        }
    }
}

/// Read one qrels line: the external id and the relevance level, or
/// nothing for comments, short lines and unreadable levels.
pub fn parse_qrels_line(line: &str) -> (r: Option<(String, i32)>)
    ensures
        qrels_line_result(line@, r),
{
    let chars = chars_vec(line);
    if chars.len() > 0 && chars[0] == '#' {
        return None;
    }
    let fields = split_fields(&chars);
    if fields.len() < 4 {
        return None;
    }
    let extid = string_from_chars(&fields[2]);
    let rel_field = &fields[3];
    let ghost fspec = qrels_fields(line@)[3];
    proof {
        assert(fields.deep_view()[3] == fields@[3]@);
        assert(fields.deep_view()[2] == fields@[2]@);
        assert(rel_field@ == fspec);
        assert(extid@ == qrels_fields(line@)[2]);
    }
    let m = rel_field.len();
    let negative = m >= 1 && rel_field[0] == '-';
    let start: usize = if negative {
        1
    } else {
        0
    };
    proof {
        if negative {
            assert(rel_field@.subrange(1, m as int) =~= fspec.skip(1));
        } else {
            assert(rel_field@.subrange(0, m as int) =~= fspec);
        }
    }
    let v = match parse_usize(rel_field, start, m) {
        Some(v) => v,
        None => {
            // either the digits are unreadable, or the value exceeds
            // the machine word and so certainly the i32 range
            return None;
        },
    };
    proof {
        if negative {
            assert(digits_value(fspec.skip(1)) == Option::Some(v as nat));
            assert(parse_rel(fspec) == Option::Some(-(v as int)));
        } else {
            assert(digits_value(fspec) == Option::Some(v as nat));
            assert(parse_rel(fspec) == Option::Some(v as int));
        }
    }
    if negative {
        if v > 0x8000_0000 {
            return None;
        }
        if v == 0x8000_0000 {
            return Some((extid, -0x7fff_ffff - 1));
        }
        Some((extid, -(v as i32)))
    } else {
        if v > 0x7fff_ffff {
            return None;
        }
        Some((extid, v as i32))
    }
}

} // verus!
