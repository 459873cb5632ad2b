//! The name filter applied during file discovery.
//!
//! Traversal of the directory tree is plain walking; the decision that
//! shapes its output is whether a file's name passes the filter. With no
//! pattern every file is a candidate; with one, the (optionally folded)
//! name must contain the (pre-folded) pattern as a substring.

use vstd::prelude::*;
use vstd::seq_lib::group_seq_lib_default;

use crate::text::{contains_pat, lower_of, name_matches};

verus! {

/// Whether a file name passes the filter: no pattern admits every file;
/// a pattern (pre-folded when case is ignored) must occur in the
/// (folded) name.
pub open spec fn name_passes(name: Seq<char>, pat: Option<Seq<char>>, ignore_case: bool) -> bool {
    match pat {
        None => true,
        Some(p) => contains_pat(
            if ignore_case {
                lower_of(name)
            } else {
                name
            },
            p,
        ),
    }
}

/// Decide the filter for one discovered file name.
pub fn passes_filter(name: &str, pat: &Option<String>, ignore_case: bool) -> (r: bool)
    ensures
        r == name_passes(name@, pat.deep_view(), ignore_case),
{
    match pat {
        None => true,
        Some(p) => name_matches(name, p.as_str(), ignore_case),
    }
}

/// Keep exactly the candidates that pass the name filter, in order.
pub fn filter_candidates(names: &Vec<String>, pat: &Option<String>, ignore_case: bool) -> (r: Vec<
    String,
>)
    ensures
        r.deep_view() == names.deep_view().filter(
            |n: Seq<char>| name_passes(n, pat.deep_view(), ignore_case),
        ),
{
    let ghost pred = |n: Seq<char>| name_passes(n, pat.deep_view(), ignore_case);
    let ghost deep = names.deep_view();
    let mut r: Vec<String> = Vec::new();
    let mut i: usize = 0;
    proof {
        reveal(Seq::filter);
    }
    while i < names.len()
        invariant
            i <= names@.len(),
            deep == names.deep_view(),
            deep.len() == names@.len(),
            forall|j: int| 0 <= j < names@.len() ==> #[trigger] deep[j] == names@[j]@,
            r.deep_view() == deep.take(i as int).filter(pred),
            pred == (|n: Seq<char>| name_passes(n, pat.deep_view(), ignore_case)),
        decreases names@.len() - i,
    {
        proof {
            reveal(Seq::filter);
            assert(deep.take(i + 1).drop_last() =~= deep.take(i as int));
            assert(deep.take(i + 1).last() == deep[i as int]);
        }
        let keep = passes_filter(names[i].as_str(), pat, ignore_case);
        if keep {
            let ghost old_r = r.deep_view();
            r.push(names[i].clone());
            proof {
                assert(r.deep_view() =~= old_r.push(deep[i as int]));
            }
        }
        i = i + 1;
    }
    proof {
        assert(deep.take(names@.len() as int) =~= deep);
    }
    r
}

/// A candidate that fails the filter is absent from the output; one that
/// passes stays, and a candidate list without duplicates filters to a
/// list without duplicates, so each matching file appears at most once.
pub proof fn lemma_filter_at_most_once(
    names: Seq<Seq<char>>,
    pat: Option<Seq<char>>,
    ignore_case: bool,
    out: Seq<Seq<char>>,
)
    requires
        names.no_duplicates(),
        out == names.filter(|n: Seq<char>| name_passes(n, pat, ignore_case)),
    ensures
        out.no_duplicates(),
        forall|n: Seq<char>|
            #![trigger out.contains(n)]
            #![trigger names.contains(n)]
            out.contains(n) <==> names.contains(n) && name_passes(n, pat, ignore_case),
    decreases names.len(),
{
    broadcast use group_seq_lib_default;

    reveal(Seq::filter);
    let pred = |n: Seq<char>| name_passes(n, pat, ignore_case);
    if names.len() > 0 {
        let head = names.drop_last();
        assert(head.no_duplicates()) by {
            assert(forall|i: int, j: int|
                0 <= i < j < head.len() ==> head[i] == names[i] && head[j] == names[j]);
        }
        lemma_filter_at_most_once(head, pat, ignore_case, head.filter(pred));
        if pred(names.last()) {
            assert(!head.filter(pred).contains(names.last())) by {
                if head.contains(names.last()) {
                    let k = choose|k: int| 0 <= k < head.len() && head[k] == names.last();
                    assert(names[k] == names[names.len() - 1]);
                }
            }
        }
        assert forall|n: Seq<char>| #[trigger]
            out.contains(n) <==> names.contains(n) && pred(n) by {
            if out.contains(n) {
                if head.filter(pred).contains(n) {
                    assert(head.contains(n) && pred(n));
                    let k = choose|k: int| 0 <= k < head.len() && head[k] == n;
                    assert(names[k] == n);
                }
            }
            if names.contains(n) && pred(n) {
                let k = choose|k: int| 0 <= k < names.len() && names[k] == n;
                if k < head.len() {
                    assert(head[k] == n);
                    assert(head.filter(pred).contains(n));
                    let k2 = choose|k2: int|
                        0 <= k2 < head.filter(pred).len() && head.filter(pred)[k2] == n;
                    assert(out[k2] == n);
                } else {
                    assert(out.last() == n);
                }
            }
        }
    }
}

} // verus!
