//! Validated search configuration.
//!
//! Construction validates the root (it must be an existing directory),
//! parses the requested degree of parallelism as a positive integer —
//! defaulting to the logical core count when none is requested — and
//! folds the patterns once, so that later stages never fold a pattern
//! again. Each validation failure is reported by its own error, and the
//! contract says exactly when each occurs.

use vstd::prelude::*;

use crate::text::{lower_of, to_lower};

verus! {

/// Why configuration construction failed.
#[derive(Debug, PartialEq, Eq, Structural)]
pub enum ConfigError {
    /// The root path is not an existing directory.
    InvalidRoot,
    /// The requested degree of parallelism is not a positive integer.
    InvalidParallelism,
}

/// The validated, immutable search parameters.
pub struct Config {
    pub verbose: bool,
    /// Name pattern, already folded when `ignore_filename_case` is set.
    pub filename: Option<String>,
    pub ignore_filename_case: bool,
    /// Content pattern, already folded when `ignore_content_case` is set.
    pub content: Option<String>,
    pub ignore_content_case: bool,
    /// Worker count for content scanning; always at least one.
    pub dop: usize,
    pub root: String,
}

/// A decimal digit.
pub open spec fn dec_digit(c: char) -> bool {
    '0' <= c && c <= '9'
}

/// The value of one decimal digit.
pub open spec fn digit_val(c: char) -> int {
    c as int - '0' as int
}

/// Every character of the text is a decimal digit.
pub open spec fn all_digits(s: Seq<char>) -> bool {
    forall|i: int| 0 <= i < s.len() ==> dec_digit(#[trigger] s[i])
}

/// The numeric value of a decimal digit string.
pub open spec fn dec_val(s: Seq<char>) -> int
    decreases s.len(),
{
    if s.len() == 0 {
        0
    } else {
        dec_val(s.drop_last()) * 10 + digit_val(s.last())
    }
}

/// A degree-of-parallelism request is valid when it is a non-empty
/// digit string whose value is positive and representable.
pub open spec fn valid_dop_text(s: Seq<char>) -> bool {
    &&& s.len() > 0
    &&& all_digits(s)
    &&& 1 <= dec_val(s) <= usize::MAX
}

/// Whether a requested degree of parallelism, if any, is valid.
pub open spec fn dop_ok(dop_text: Option<Seq<char>>) -> bool {
    match dop_text {
        None => true,
        Some(t) => valid_dop_text(t),
    }
}

/// A digit string has a non-negative value.
proof fn lemma_dec_val_nonneg(s: Seq<char>)
    requires
        all_digits(s),
    ensures
        dec_val(s) >= 0,
    decreases s.len(),
{
    if s.len() > 0 {
        assert(all_digits(s.drop_last())) by {
            assert(forall|i: int|
                0 <= i < s.len() - 1 ==> #[trigger] s.drop_last()[i] == s[i]);
        }
        lemma_dec_val_nonneg(s.drop_last());
    }
}

/// The value of a digit string is at least the value of any of its
/// prefixes.
proof fn lemma_dec_val_prefix(s: Seq<char>, i: int)
    requires
        all_digits(s),
        0 <= i <= s.len(),
    ensures
        dec_val(s.take(i)) <= dec_val(s),
    decreases s.len() - i,
{
    if i < s.len() {
        assert(s.take(i + 1).drop_last() =~= s.take(i));
        assert(all_digits(s.take(i))) by {
            assert(forall|j: int| 0 <= j < i ==> #[trigger] s.take(i)[j] == s[j]);
        }
        lemma_dec_val_nonneg(s.take(i));
        assert(dec_val(s.take(i + 1)) == dec_val(s.take(i)) * 10 + digit_val(s[i]));
        lemma_dec_val_prefix(s, i + 1);
    } else {
        assert(s.take(i) =~= s);
    }
}

/// The value of one digit character, or nothing for any other character.
fn digit_of(c: char) -> (r: Option<usize>)
    ensures
        match r {
            Some(d) => dec_digit(c) && d == digit_val(c) && d <= 9,
            None => !dec_digit(c),
        },
{
    match c {
        '0' => Some(0),
        '1' => Some(1),
        '2' => Some(2),
        '3' => Some(3),
        '4' => Some(4),
        '5' => Some(5),
        '6' => Some(6),
        '7' => Some(7),
        '8' => Some(8),
        '9' => Some(9),
        _ => None,
    }
}

/// Parse a degree-of-parallelism request.
///
/// Returns the value exactly when the text is a non-empty digit string
/// with a positive, representable value; any other text — empty, with a
/// non-digit, zero, or too large — is rejected.
pub fn parse_dop(s: &str) -> (r: Option<usize>)
    ensures
        match r {
            Some(d) => valid_dop_text(s@) && d == dec_val(s@) && d >= 1,
            None => !valid_dop_text(s@),
        },
{
    let n = s.unicode_len();
    if n == 0 {
        return None;
    }
    let mut acc: usize = 0;
    let mut i: usize = 0;
    while i < n
        invariant
            n == s@.len(),
            i <= n,
            all_digits(s@.take(i as int)),
            acc == dec_val(s@.take(i as int)),
        decreases n - i,
    {
        let c = s.get_char(i);
        proof {
            assert(s@.take(i + 1).drop_last() =~= s@.take(i as int));
            assert(s@.take(i + 1).last() == s@[i as int]);
        }
        let d = match digit_of(c) {
            Some(d) => d,
            None => {
                return None;
            },
        };
        let shifted = match acc.checked_mul(10) {
            Some(v) => v,
            None => {
                proof {
                    if all_digits(s@) {
                        lemma_dec_val_prefix(s@, i + 1);
                    }
                }
                return None;
            },
        };
        acc = match shifted.checked_add(d) {
            Some(v) => v,
            None => {
                proof {
                    if all_digits(s@) {
                        lemma_dec_val_prefix(s@, i + 1);
                    }
                }
                return None;
            },
        };
        i = i + 1;
    }
    proof {
        assert(s@.take(n as int) =~= s@);
    }
    if acc == 0 {
        None
    } else {
        Some(acc)
    }
}

/// Relies on `num_cpus::get`: the number of logical processors of the
/// machine the search runs on, at least one whatever the machine.
#[verifier::external_body]
fn cpu_count() -> (r: usize)
    ensures
        r >= 1,
{
    num_cpus::get()
}

/// The pattern a stage will compare with: folded once at construction
/// when its case flag is set, untouched otherwise.
pub open spec fn stored_pattern(pat: Option<Seq<char>>, fold: bool) -> Option<Seq<char>> {
    match pat {
        None => None,
        Some(p) => Some(
            if fold {
                lower_of(p)
            } else {
                p
            },
        ),
    }
}

impl Config {
    /// Validate the parameters of a run and build its configuration.
    ///
    /// The degree of parallelism is examined first: a request that is
    /// not a positive integer fails with `InvalidParallelism`, and no
    /// request defaults to the logical core count. Then the root: a
    /// path that is not an existing directory (`root_is_dir` reports
    /// what the file system said of it) fails with `InvalidRoot`. On
    /// success the patterns are stored pre-folded where their case
    /// flags ask for it, and every other parameter is kept as given.
    pub fn new(
        root: String,
        root_is_dir: bool,
        filename: Option<String>,
        ignore_filename_case: bool,
        content: Option<String>,
        ignore_content_case: bool,
        dop_text: Option<String>,
        verbose: bool,
    ) -> (r: Result<Config, ConfigError>)
        ensures
            r is Ok <==> dop_ok(dop_text.deep_view()) && root_is_dir,
            match r {
                Ok(c) => {
                    &&& c.root == root
                    &&& c.verbose == verbose
                    &&& c.ignore_filename_case == ignore_filename_case
                    &&& c.ignore_content_case == ignore_content_case
                    &&& c.filename.deep_view() == stored_pattern(
                        filename.deep_view(),
                        ignore_filename_case,
                    )
                    &&& c.content.deep_view() == stored_pattern(
                        content.deep_view(),
                        ignore_content_case,
                    )
                    &&& c.dop >= 1
                    &&& match dop_text {
                        Some(t) => c.dop == dec_val(t@),
                        None => true,
                    }
                },
                Err(e) => {
                    &&& (e is InvalidParallelism <==> !dop_ok(dop_text.deep_view()))
                    &&& (e is InvalidRoot <==> dop_ok(dop_text.deep_view()) && !root_is_dir)
                },
            },
    {
        let dop: usize = match &dop_text {
            Some(t) => match parse_dop(t.as_str()) {
                Some(d) => d,
                None => {
                    return Err(ConfigError::InvalidParallelism);
                },
            },
            None => cpu_count(),
        };
        if !root_is_dir {
            return Err(ConfigError::InvalidRoot);
        }
        let filename = match filename {
            Some(f) => Some(
                if ignore_filename_case {
                    to_lower(f.as_str())
                } else {
                    f
                },
            ),
            None => None,
        };
        let content = match content {
            Some(p) => Some(
                if ignore_content_case {
                    to_lower(p.as_str())
                } else {
                    p
                },
            ),
            None => None,
        };
        Ok(
            Config {
                verbose,
                filename,
                ignore_filename_case,
                content,
                ignore_content_case,
                dop,
                root,
            },
        )
    }
}

} // verus!
