//! Substring matching over character sequences, and case folding.
//!
//! Both the name filter and the content scanner reduce to one question:
//! does a pattern occur in a subject string, and if so, where first?
//! Case-insensitive comparison folds both sides to lower case; the fold
//! itself is delegated to the standard library and named abstractly.

use vstd::prelude::*;

verus! {

/// The pattern `pat` occurs in `hay` starting at character offset `i`.
pub open spec fn match_at(hay: Seq<char>, pat: Seq<char>, i: int) -> bool {
    0 <= i && i + pat.len() <= hay.len() && hay.subrange(i, i + pat.len() as int) == pat
}

/// The pattern occurs somewhere in the subject.
pub open spec fn contains_pat(hay: Seq<char>, pat: Seq<char>) -> bool {
    exists|i: int| match_at(hay, pat, i)
}

/// What `str::to_lowercase` returns for a given character sequence.
pub uninterp spec fn lower_of(s: Seq<char>) -> Seq<char>;

/// Case-insensitive containment: both sides folded, then compared.
pub open spec fn ci_contains(hay: Seq<char>, pat: Seq<char>) -> bool {
    contains_pat(lower_of(hay), lower_of(pat))
}

/// Relies on `str::to_lowercase`: the result depends on the input
/// characters alone, and an empty string stays empty.
#[verifier::external_body]
pub(crate) fn to_lower(s: &str) -> (r: String)
    ensures
        r@ == lower_of(s@),
        s@.len() == 0 ==> r@.len() == 0,
{
    s.to_lowercase()
}

/// Whether `pat` occurs in `hay` starting exactly at offset `i`.
fn match_here(hay: &str, pat: &str, i: usize) -> (r: bool)
    requires
        i + pat@.len() <= hay@.len(),
        hay@.len() <= usize::MAX,
    ensures
        r == match_at(hay@, pat@, i as int),
{
    let m = pat.unicode_len();
    let mut j: usize = 0;
    while j < m
        invariant
            j <= m,
            m == pat@.len(),
            i + m <= hay@.len(),
            hay@.len() <= usize::MAX,
            forall|k: int| 0 <= k < j ==> hay@[i + k] == pat@[k],
        decreases m - j,
    {
        if hay.get_char(i + j) != pat.get_char(j) {
            assert(hay@.subrange(i as int, i + m) != pat@) by {
                assert(hay@.subrange(i as int, i + m)[j as int] == hay@[i + j]);
            }
            return false;
        }
        j = j + 1;
    }
    assert(hay@.subrange(i as int, i + m) =~= pat@);
    true
}

/// Character offset of the first occurrence of `pat` in `hay`, if any.
///
/// `Some(i)` is returned exactly when the pattern occurs, with `i` the
/// least offset at which it does; `None` means it occurs nowhere.
pub fn find_first(hay: &str, pat: &str) -> (r: Option<usize>)
    ensures
        match r {
            Some(i) => match_at(hay@, pat@, i as int) && forall|j: int|
                0 <= j < i ==> !match_at(hay@, pat@, j),
            None => !contains_pat(hay@, pat@),
        },
{
    let n = hay.unicode_len();
    let m = pat.unicode_len();
    if m > n {
        assert(forall|i: int| !match_at(hay@, pat@, i));
        return None;
    }
    if m == 0 {
        assert(match_at(hay@, pat@, 0)) by {
            assert(hay@.subrange(0, 0) =~= pat@);
        }
        return Some(0);
    }
    let mut i: usize = 0;
    while i <= n - m
        invariant
            n == hay@.len(),
            m == pat@.len(),
            0 < m <= n,
            i <= n - m + 1,
            forall|j: int| 0 <= j < i ==> !match_at(hay@, pat@, j),
        decreases n - i,
    {
        if match_here(hay, pat, i) {
            return Some(i);
        }
        i = i + 1;
    }
    assert(forall|j: int| !match_at(hay@, pat@, j)) by {
        assert(forall|j: int| j > n - m ==> !match_at(hay@, pat@, j));
    }
    None
}

/// Whether the subject contains the pattern at all.
pub fn contains_sub(hay: &str, pat: &str) -> (r: bool)
    ensures
        r == contains_pat(hay@, pat@),
{
    match find_first(hay, pat) {
        Some(_) => true,
        None => false,
    }
}

/// Whether a file name passes the name filter.
///
/// With `ignore_case` set the pattern is expected pre-folded (the
/// configuration folds it once at construction); the name is folded here.
pub fn name_matches(name: &str, pat: &str, ignore_case: bool) -> (r: bool)
    ensures
        ignore_case ==> r == contains_pat(lower_of(name@), pat@),
        !ignore_case ==> r == contains_pat(name@, pat@),
{
    if ignore_case {
        let folded = to_lower(name);
        contains_sub(folded.as_str(), pat)
    } else {
        contains_sub(name, pat)
    }
}

/// Case-insensitive matching may fold its operands at any stage: folding
/// the pattern once ahead of time and each subject when it is scanned
/// gives the same result as folding both at the moment of comparison.
pub proof fn lemma_fold_stages(
    hay: Seq<char>,
    pat: Seq<char>,
    folded_hay: Seq<char>,
    folded_pat: Seq<char>,
)
    requires
        folded_hay == lower_of(hay),
        folded_pat == lower_of(pat),
    ensures
        contains_pat(folded_hay, folded_pat) == ci_contains(hay, pat),
{
}

} // verus!
