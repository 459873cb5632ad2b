//! Content scanning: find the pattern in each line of a file.
//!
//! A worker hands every decoded line of a file to the scanner. A line is
//! folded to lower case first when case-insensitive matching is on (the
//! pattern itself is folded once, at configuration time); the recorded
//! column is the character offset of the first occurrence in the line,
//! and line numbers are one-based. The whole result is a function of the
//! lines and the pattern: repeated scans of unchanged input agree.

use vstd::prelude::*;

use crate::text::{contains_pat, lower_of, match_at, to_lower, find_first};

verus! {

/// One reported occurrence: one-based line number, character offset of
/// the first occurrence in that line, and the (possibly folded) line.
pub struct LineMatch {
    pub line: usize,
    pub column: usize,
    pub text: String,
}

/// The outcome for one file: the path, and the line matches when a
/// content scan was performed (`None` in name-only mode).
pub struct MatchResult {
    pub file: String,
    pub lines: Option<Vec<LineMatch>>,
}

/// Mathematical image of a `LineMatch`.
pub ghost struct MatchRec {
    pub line: int,
    pub column: int,
    pub text: Seq<char>,
}

/// The subject a line is compared as: folded when case is ignored.
pub open spec fn subject_of(line: Seq<char>, ignore_case: bool) -> Seq<char> {
    if ignore_case {
        lower_of(line)
    } else {
        line
    }
}

/// Offset of the first occurrence of `pat` in `hay` at or after `i`.
pub open spec fn first_match_from(hay: Seq<char>, pat: Seq<char>, i: nat) -> Option<nat>
    decreases hay.len() + 1 - i,
{
    if i + pat.len() > hay.len() {
        None
    } else if match_at(hay, pat, i as int) {
        Some(i)
    } else {
        first_match_from(hay, pat, i + 1)
    }
}

/// Offset of the first occurrence of `pat` in `hay`, if any.
pub open spec fn first_match(hay: Seq<char>, pat: Seq<char>) -> Option<nat> {
    first_match_from(hay, pat, 0)
}

/// The image of an executable match entry.
pub open spec fn rec_of(e: LineMatch) -> MatchRec {
    MatchRec { line: e.line as int, column: e.column as int, text: e.text@ }
}

/// The images of a sequence of match entries.
pub open spec fn recs_of(s: Seq<LineMatch>) -> Seq<MatchRec> {
    s.map_values(|e: LineMatch| rec_of(e))
}

/// The matches a scan of `lines` must report, in line order: one record
/// per line whose subject contains the pattern, carrying the first
/// occurrence's offset and the subject text.
pub open spec fn scan_spec(lines: Seq<Seq<char>>, pat: Seq<char>, ignore_case: bool) -> Seq<
    MatchRec,
>
    decreases lines.len(),
{
    if lines.len() == 0 {
        Seq::empty()
    } else {
        let prefix = scan_spec(lines.drop_last(), pat, ignore_case);
        let subj = subject_of(lines.last(), ignore_case);
        match first_match(subj, pat) {
            Some(c) => prefix.push(
                MatchRec { line: lines.len() as int, column: c as int, text: subj },
            ),
            None => prefix,
        }
    }
}

/// `first_match_from` finds a match exactly when one exists at or after
/// `i`, and the one it finds is the least such offset.
proof fn lemma_first_match_from(hay: Seq<char>, pat: Seq<char>, i: nat)
    ensures
        match first_match_from(hay, pat, i) {
            Some(c) => i <= c && match_at(hay, pat, c as int) && forall|j: int|
                i <= j < c ==> !match_at(hay, pat, j),
            None => forall|j: int| j >= i ==> !match_at(hay, pat, j),
        },
    decreases hay.len() + 1 - i,
{
    if i + pat.len() > hay.len() {
        assert(forall|j: int| j >= i ==> !match_at(hay, pat, j));
    } else if match_at(hay, pat, i as int) {
    } else {
        lemma_first_match_from(hay, pat, i + 1);
    }
}

/// `first_match` returns the least occurrence offset, and `None` exactly
/// when the pattern does not occur.
pub proof fn lemma_first_match(hay: Seq<char>, pat: Seq<char>)
    ensures
        match first_match(hay, pat) {
            Some(c) => match_at(hay, pat, c as int) && forall|j: int|
                0 <= j < c ==> !match_at(hay, pat, j),
            None => !contains_pat(hay, pat),
        },
{
    lemma_first_match_from(hay, pat, 0);
    if first_match(hay, pat) is None {
        assert forall|j: int| !match_at(hay, pat, j) by {
            if j >= 0 {
                assert(!match_at(hay, pat, j));
            }
        }
    }
}

/// A least occurrence offset is what `first_match` returns.
proof fn lemma_first_match_unique(hay: Seq<char>, pat: Seq<char>, c: int)
    requires
        match_at(hay, pat, c),
        forall|j: int| 0 <= j < c ==> !match_at(hay, pat, j),
    ensures
        first_match(hay, pat) == Some(c as nat),
{
    lemma_first_match(hay, pat);
    match first_match(hay, pat) {
        Some(c2) => {
            if c2 < c {
                assert(!match_at(hay, pat, c2 as int));
            }
            if c < c2 {
                assert(!match_at(hay, pat, c));
            }
        },
        None => {
            assert(contains_pat(hay, pat));
        },
    }
}

/// Scan every line for the pattern.
///
/// The pattern is expected pre-folded when `ignore_case` is set. The
/// result is exactly `scan_spec` of the lines: one entry per line that
/// contains the pattern (after folding, if requested), in line order,
/// with the one-based line number, the character offset of the first
/// occurrence, and the compared text.
pub fn scan_lines(lines: &Vec<String>, pat: &str, ignore_case: bool) -> (r: Vec<LineMatch>)
    ensures
        recs_of(r@) == scan_spec(lines.deep_view(), pat@, ignore_case),
{
    let ghost deep = lines.deep_view();
    let mut r: Vec<LineMatch> = Vec::new();
    let mut i: usize = 0;
    while i < lines.len()
        invariant
            i <= lines@.len(),
            deep == lines.deep_view(),
            deep.len() == lines@.len(),
            forall|j: int| 0 <= j < lines@.len() ==> #[trigger] deep[j] == lines@[j]@,
            recs_of(r@) == scan_spec(deep.take(i as int), pat@, ignore_case),
        decreases lines@.len() - i,
    {
        let subj: String = if ignore_case {
            to_lower(lines[i].as_str())
        } else {
            lines[i].clone()
        };
        assert(subj@ == subject_of(deep[i as int], ignore_case));
        let ghost prefix = scan_spec(deep.take(i as int), pat@, ignore_case);
        proof {
            assert(deep.take(i + 1).drop_last() =~= deep.take(i as int));
            assert(deep.take(i + 1).last() == deep[i as int]);
        }
        match find_first(subj.as_str(), pat) {
            Some(c) => {
                let e = LineMatch { line: i + 1, column: c, text: subj };
                proof {
                    lemma_first_match_unique(e.text@, pat@, c as int);
                }
                let ghost old_r = r@;
                r.push(e);
                proof {
                    assert(recs_of(r@) =~= recs_of(old_r).push(rec_of(e)));
                    assert(scan_spec(deep.take(i + 1), pat@, ignore_case) == prefix.push(
                        MatchRec {
                            line: i + 1,
                            column: c as int,
                            text: subject_of(deep[i as int], ignore_case),
                        },
                    ));
                }
            },
            None => {
                proof {
                    lemma_first_match_unique_none(subj@, pat@);
                    assert(scan_spec(deep.take(i + 1), pat@, ignore_case) == prefix);
                }
            },
        }
        i = i + 1;
    }
    proof {
        assert(deep.take(lines@.len() as int) =~= deep);
    }
    r
}

/// When the pattern occurs nowhere, `first_match` reports nothing.
proof fn lemma_first_match_unique_none(hay: Seq<char>, pat: Seq<char>)
    requires
        !contains_pat(hay, pat),
    ensures
        first_match(hay, pat) is None,
{
    lemma_first_match(hay, pat);
    if first_match(hay, pat) is Some {
        assert(contains_pat(hay, pat));
    }
}

/// Some entry of `recs` names the one-based line number `ln`.
pub open spec fn reports_line(recs: Seq<MatchRec>, ln: int) -> bool {
    exists|k: int| 0 <= k < recs.len() && (#[trigger] recs[k]).line == ln
}

/// Every reported match lies on the line it names: its one-based line
/// number is within the input, its text is that line's subject, the
/// pattern occurs at the reported column, and at no earlier column.
pub proof fn lemma_scan_entries_valid(
    lines: Seq<Seq<char>>,
    pat: Seq<char>,
    ignore_case: bool,
    k: int,
)
    requires
        0 <= k < scan_spec(lines, pat, ignore_case).len(),
    ensures
        ({
            let e = scan_spec(lines, pat, ignore_case)[k];
            &&& 1 <= e.line <= lines.len()
            &&& e.text == subject_of(lines[e.line - 1], ignore_case)
            &&& match_at(e.text, pat, e.column)
            &&& forall|j: int| 0 <= j < e.column ==> !match_at(e.text, pat, j)
        }),
    decreases lines.len(),
{
    let prefix = scan_spec(lines.drop_last(), pat, ignore_case);
    if k < prefix.len() {
        lemma_scan_entries_valid(lines.drop_last(), pat, ignore_case, k);
        let e = prefix[k];
        assert(lines.drop_last()[e.line - 1] == lines[e.line - 1]);
    } else {
        let subj = subject_of(lines.last(), ignore_case);
        lemma_first_match(subj, pat);
    }
}

/// Matches are reported in strictly increasing line order: no line is
/// reported twice.
pub proof fn lemma_scan_lines_increasing(
    lines: Seq<Seq<char>>,
    pat: Seq<char>,
    ignore_case: bool,
    k1: int,
    k2: int,
)
    requires
        0 <= k1 < k2 < scan_spec(lines, pat, ignore_case).len(),
    ensures
        scan_spec(lines, pat, ignore_case)[k1].line < scan_spec(lines, pat, ignore_case)[k2].line,
    decreases lines.len(),
{
    let prefix = scan_spec(lines.drop_last(), pat, ignore_case);
    if k2 < prefix.len() {
        lemma_scan_lines_increasing(lines.drop_last(), pat, ignore_case, k1, k2);
    } else {
        lemma_scan_entries_valid(lines.drop_last(), pat, ignore_case, k1);
    }
}

/// A line is reported by the scan exactly when its subject contains the
/// pattern: no match is missed, and no line without one is reported.
pub proof fn lemma_scan_complete(lines: Seq<Seq<char>>, pat: Seq<char>, ignore_case: bool, i: int)
    requires
        0 <= i < lines.len(),
    ensures
        reports_line(scan_spec(lines, pat, ignore_case), i + 1) <==> contains_pat(
            subject_of(lines[i], ignore_case),
            pat,
        ),
    decreases lines.len(),
{
    let recs = scan_spec(lines, pat, ignore_case);
    let prefix = scan_spec(lines.drop_last(), pat, ignore_case);
    let subj = subject_of(lines.last(), ignore_case);
    lemma_first_match(subj, pat);
    if i == lines.len() - 1 {
        match first_match(subj, pat) {
            Some(c) => {
                assert(recs[recs.len() - 1].line == i + 1);
            },
            None => {
                assert forall|k: int| 0 <= k < recs.len() implies (#[trigger] recs[k]).line != i
                    + 1 by {
                    lemma_scan_entries_valid(lines.drop_last(), pat, ignore_case, k);
                }
            },
        }
    } else {
        lemma_scan_complete(lines.drop_last(), pat, ignore_case, i);
        assert(lines.drop_last()[i] == lines[i]);
        if reports_line(prefix, i + 1) {
            let k = choose|k: int| 0 <= k < prefix.len() && (#[trigger] prefix[k]).line == i + 1;
            assert(recs[k].line == i + 1);
        }
        if reports_line(recs, i + 1) {
            let k = choose|k: int| 0 <= k < recs.len() && (#[trigger] recs[k]).line == i + 1;
            if k < prefix.len() {
                assert(prefix[k].line == i + 1);
            } else {
                assert(recs[k].line == lines.len());
            }
        }
    }
}

/// Fold-then-compare commutes with fold-at-comparison-time: folding
/// every line ahead of time and scanning case-sensitively reports
/// exactly the same matches as scanning the raw lines with case
/// ignored. The pattern is pre-folded either way.
pub proof fn lemma_fold_before_or_during_scan(lines: Seq<Seq<char>>, pat: Seq<char>)
    ensures
        scan_spec(lines, pat, true) == scan_spec(
            lines.map_values(|l: Seq<char>| lower_of(l)),
            pat,
            false,
        ),
    decreases lines.len(),
{
    let folded = lines.map_values(|l: Seq<char>| lower_of(l));
    if lines.len() == 0 {
        assert(scan_spec(lines, pat, true) =~= scan_spec(folded, pat, false));
    } else {
        lemma_fold_before_or_during_scan(lines.drop_last(), pat);
        assert(folded.drop_last() =~= lines.drop_last().map_values(
            |l: Seq<char>| lower_of(l),
        ));
        assert(folded.last() == lower_of(lines.last()));
        assert(subject_of(lines.last(), true) == subject_of(folded.last(), false));
    }
}

/// The matches of a scan are a function of the lines and the pattern
/// alone: two results that both meet the scanner's contract agree
/// record for record. Output order across files may vary between runs;
/// the matches within each file may not.
pub proof fn lemma_scan_deterministic(
    lines: Seq<Seq<char>>,
    pat: Seq<char>,
    ignore_case: bool,
    r1: Seq<LineMatch>,
    r2: Seq<LineMatch>,
)
    requires
        recs_of(r1) == scan_spec(lines, pat, ignore_case),
        recs_of(r2) == scan_spec(lines, pat, ignore_case),
    ensures
        recs_of(r1) == recs_of(r2),
        r1.len() == r2.len(),
{
    assert(recs_of(r1).len() == r1.len());
    assert(recs_of(r2).len() == r2.len());
}

/// Scan one file's decoded lines, producing its result record.
///
/// This is the whole of one worker's computation for one file; the
/// caller supplies the path and the lines it could read and decode.
pub fn scan_file(path: String, lines: &Vec<String>, pat: &str, ignore_case: bool) -> (r:
    MatchResult)
    ensures
        r.file == path,
        r.lines is Some,
        recs_of(r.lines->Some_0@) == scan_spec(lines.deep_view(), pat@, ignore_case),
{
    let found = scan_lines(lines, pat, ignore_case);
    MatchResult { file: path, lines: Some(found) }
}

} // verus!
