//! Rendering results to output lines.
//!
//! The aggregator prints, for a name-only result, just the file path;
//! for a content result with matches, the path followed by one indented
//! `  line:column text` row per match; and nothing at all for a content
//! result without matches. The rows here are the exact text printed,
//! one output line per element.

use vstd::prelude::*;

use crate::config::{all_digits, dec_digit, dec_val, digit_val};
use crate::scan::{recs_of, LineMatch, MatchRec, MatchResult};

verus! {

/// The character of one decimal digit.
pub open spec fn digit_char(d: int) -> char {
    if d == 0 {
        '0'
    } else if d == 1 {
        '1'
    } else if d == 2 {
        '2'
    } else if d == 3 {
        '3'
    } else if d == 4 {
        '4'
    } else if d == 5 {
        '5'
    } else if d == 6 {
        '6'
    } else if d == 7 {
        '7'
    } else if d == 8 {
        '8'
    } else {
        '9'
    }
}

/// The decimal rendering of a non-negative number: most significant
/// digit first, no leading zero except for zero itself.
pub open spec fn dec_str(v: int) -> Seq<char>
    decreases v,
    when v >= 0 via dec_str_decreases
{
    if v < 10 {
        seq![digit_char(v)]
    } else {
        dec_str(v / 10).push(digit_char(v % 10))
    }
}

#[via_fn]
proof fn dec_str_decreases(v: int) {
    if v >= 10 {
        assert(0 <= v / 10 < v) by (nonlinear_arith)
            requires
                v >= 10,
        ;
    }
}

/// Rendering then reading back is the identity: the decimal rendering
/// of `v` is a digit string whose value is `v`.
pub proof fn lemma_dec_str_val(v: int)
    requires
        v >= 0,
    ensures
        all_digits(dec_str(v)),
        dec_val(dec_str(v)) == v,
        dec_str(v).len() >= 1,
    decreases v,
{
    vstd::arithmetic::div_mod::lemma_fundamental_div_mod(v, 10);
    if v < 10 {
        let s = dec_str(v);
        assert(s =~= seq![digit_char(v)]);
        assert(s.len() == 1);
        assert(s.drop_last() =~= Seq::<char>::empty());
        assert(dec_val(s.drop_last()) == 0);
        assert(s.last() == digit_char(v));
        assert(digit_val(digit_char(v)) == v);
        assert(dec_val(s) == dec_val(s.drop_last()) * 10 + digit_val(s.last()));
        assert(dec_val(s) == v);
    } else {
        assert(0 <= v / 10 < v) by (nonlinear_arith)
            requires
                v >= 10,
        ;
        assert(0 <= v % 10 < 10) by {
            vstd::arithmetic::div_mod::lemma_mod_bound(v, 10);
        }
        lemma_dec_str_val(v / 10);
        let s = dec_str(v);
        assert(s == dec_str(v / 10).push(digit_char(v % 10)));
        assert(s.len() == dec_str(v / 10).len() + 1);
        assert(s.drop_last() =~= dec_str(v / 10));
        assert(s.last() == digit_char(v % 10));
        assert(digit_val(digit_char(v % 10)) == v % 10);
        assert(dec_digit(digit_char(v % 10)));
        assert(dec_val(s) == dec_val(dec_str(v / 10)) * 10 + digit_val(s.last()));
        assert(forall|i: int| 0 <= i < s.len() - 1 ==> #[trigger] s[i] == dec_str(v / 10)[i]);
        assert(all_digits(s));
    }
}

/// One digit as text.
fn digit_text(d: usize) -> (r: &'static str)
    requires
        d <= 9,
    ensures
        r@ =~= seq![digit_char(d as int)],
{
    proof {
        reveal_strlit("0");
        reveal_strlit("1");
        reveal_strlit("2");
        reveal_strlit("3");
        reveal_strlit("4");
        reveal_strlit("5");
        reveal_strlit("6");
        reveal_strlit("7");
        reveal_strlit("8");
        reveal_strlit("9");
    }
    match d {
        0 => "0",
        1 => "1",
        2 => "2",
        3 => "3",
        4 => "4",
        5 => "5",
        6 => "6",
        7 => "7",
        8 => "8",
        _ => "9",
    }
}

/// Render a number as decimal text.
pub fn format_usize(v: usize) -> (r: String)
    ensures
        r@ == dec_str(v as int),
    decreases v,
{
    if v < 10 {
        String::from_str(digit_text(v))
    } else {
        proof {
            assert(0 <= v as int / 10 < v as int) by (nonlinear_arith)
                requires
                    v >= 10,
            ;
        }
        let prefix = format_usize(v / 10);
        let r = prefix.concat(digit_text(v % 10));
        proof {
            assert(r@ =~= dec_str(v as int / 10).push(digit_char(v as int % 10)));
        }
        r
    }
}

/// The printed row for one line match: two spaces, the one-based line
/// number, a colon, the column, a space, and the matched line's text.
pub open spec fn rendered_match(m: MatchRec) -> Seq<char> {
    seq![' ', ' '] + dec_str(m.line) + seq![':'] + dec_str(m.column) + seq![' '] + m.text
}

/// The printed rows for one file's result: the path alone in name-only
/// mode; the path and one row per match in content mode, or no rows at
/// all when the content scan found nothing.
pub open spec fn rendered_result(file: Seq<char>, lines: Option<Seq<MatchRec>>) -> Seq<Seq<char>> {
    match lines {
        None => seq![file],
        Some(ms) => if ms.len() == 0 {
            Seq::empty()
        } else {
            seq![file] + ms.map_values(|m: MatchRec| rendered_match(m))
        },
    }
}

/// Render one match entry as its output row.
fn render_match(e: &LineMatch) -> (r: String)
    ensures
        r@ == rendered_match(crate::scan::rec_of(*e)),
{
    proof {
        reveal_strlit("  ");
        reveal_strlit(":");
        reveal_strlit(" ");
    }
    let mut row = String::from_str("  ");
    row.append(format_usize(e.line).as_str());
    row.append(":");
    row.append(format_usize(e.column).as_str());
    row.append(" ");
    row.append(e.text.as_str());
    proof {
        assert("  "@ =~= seq![' ', ' ']);
        assert(":"@ =~= seq![':']);
        assert(" "@ =~= seq![' ']);
        assert(row@ =~= rendered_match(crate::scan::rec_of(*e)));
    }
    row
}

/// The ghost image of a result's line matches.
pub open spec fn lines_view(lines: Option<Vec<LineMatch>>) -> Option<Seq<MatchRec>> {
    match lines {
        None => None,
        Some(v) => Some(recs_of(v@)),
    }
}

/// Render one file's result as the rows the aggregator prints for it.
pub fn render_result(r: &MatchResult) -> (out: Vec<String>)
    ensures
        out.deep_view() == rendered_result(r.file@, lines_view(r.lines)),
{
    let mut out: Vec<String> = Vec::new();
    match &r.lines {
        None => {
            out.push(r.file.clone());
            proof {
                assert(out.deep_view() =~= rendered_result(r.file@, lines_view(r.lines)));
            }
        },
        Some(ms) => {
            if ms.len() > 0 {
                out.push(r.file.clone());
                let mut i: usize = 0;
                while i < ms.len()
                    invariant
                        i <= ms@.len(),
                        out.deep_view() =~= seq![r.file@] + recs_of(ms@).take(i as int).map_values(
                            |m: MatchRec| rendered_match(m),
                        ),
                    decreases ms@.len() - i,
                {
                    let row = render_match(&ms[i]);
                    let ghost old_out = out.deep_view();
                    out.push(row);
                    proof {
                        assert(out.deep_view() =~= old_out.push(row@));
                        assert(recs_of(ms@).take(i + 1).map_values(
                            |m: MatchRec| rendered_match(m),
                        ) =~= recs_of(ms@).take(i as int).map_values(
                            |m: MatchRec| rendered_match(m),
                        ).push(rendered_match(recs_of(ms@)[i as int])));
                    }
                    i = i + 1;
                }
                proof {
                    assert(recs_of(ms@).take(ms@.len() as int) =~= recs_of(ms@));
                    assert(out.deep_view() =~= rendered_result(r.file@, lines_view(r.lines)));
                }
            } else {
                proof {
                    assert(out.deep_view() =~= rendered_result(r.file@, lines_view(r.lines)));
                }
            }
        },
    }
    out
}

} // verus!
