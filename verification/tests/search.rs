use lps::config::{parse_dop, Config, ConfigError};
use lps::discover::{filter_candidates, passes_filter};
use lps::partition::{chunks_of, partition_bounds};
use lps::render::{format_usize, render_result};
use lps::scan::{scan_file, scan_lines, MatchResult};
use lps::text::{contains_sub, find_first, name_matches};

fn strings(v: &[&str]) -> Vec<String> {
    v.iter().map(|s| s.to_string()).collect()
}

#[test]
fn find_first_reports_first_occurrence() {
    assert_eq!(find_first("hello world", "world"), Some(6));
    assert_eq!(find_first("aaa", "aa"), Some(0));
    assert_eq!(find_first("abc", "zzz"), None);
    assert_eq!(find_first("abc", ""), Some(0));
    assert_eq!(find_first("", "a"), None);
}

#[test]
fn contains_sub_is_substring_containment() {
    assert!(contains_sub("test1.rs", "test"));
    assert!(!contains_sub("other.rs", "test"));
    assert!(contains_sub("anything", ""));
}

#[test]
fn name_matches_folds_the_name() {
    // The pattern arrives pre-folded; the name is folded at comparison.
    assert!(name_matches("TeSt1.RS", "test", true));
    assert!(!name_matches("TeSt1.RS", "test", false));
    assert!(name_matches("test1.rs", "test", false));
}

#[test]
fn name_only_scenario_keeps_only_matching_files() {
    // Name pattern "test": the tree holds test1.rs and other.rs; only
    // the former may appear in the output.
    let names = strings(&["test1.rs", "other.rs"]);
    let out = filter_candidates(&names, &Some("test".to_string()), false);
    assert_eq!(out, strings(&["test1.rs"]));
}

#[test]
fn no_pattern_admits_every_file() {
    let names = strings(&["a.txt", "b.md"]);
    let out = filter_candidates(&names, &None, false);
    assert_eq!(out, names);
    assert!(passes_filter("anything", &None, false));
}

#[test]
fn case_insensitive_filter_folds_both_sides() {
    let names = strings(&["TEST1.RS", "other.rs"]);
    let out = filter_candidates(&names, &Some("test".to_string()), true);
    assert_eq!(out, strings(&["TEST1.RS"]));
}

#[test]
fn partition_covers_whole_list_without_duplicates() {
    let files = strings(&["a", "b", "c", "d", "e"]);
    let chunks = chunks_of(&files, 2);
    assert_eq!(chunks.len(), 2);
    assert_eq!(chunks[0], strings(&["a", "b", "c"]));
    assert_eq!(chunks[1], strings(&["d", "e"]));
    let rejoined: Vec<String> = chunks.into_iter().flatten().collect();
    assert_eq!(rejoined, files);
}

#[test]
fn partition_caps_workers_at_candidate_count() {
    let files = strings(&["a", "b", "c"]);
    let chunks = chunks_of(&files, 10);
    assert_eq!(chunks.len(), 3);
    for chunk in &chunks {
        assert_eq!(chunk.len(), 1);
    }
}

#[test]
fn partition_of_empty_list_is_empty() {
    let files: Vec<String> = Vec::new();
    let chunks = chunks_of(&files, 4);
    assert!(chunks.is_empty());
}

#[test]
fn partition_bounds_distributes_remainder_to_first_workers() {
    let bounds = partition_bounds(10, 4);
    assert_eq!(bounds, vec![(0, 3), (3, 6), (6, 8), (8, 10)]);
    let bounds = partition_bounds(6, 3);
    assert_eq!(bounds, vec![(0, 2), (2, 4), (4, 6)]);
    assert_eq!(partition_bounds(0, 3), vec![]);
}

#[test]
fn content_scenario_reports_line_and_column() {
    // a/notes.txt holds "hello world" on line 2; b/readme.md has no
    // match. The first file renders with its match row, the second
    // renders to nothing.
    let notes = strings(&["first line", "hello world"]);
    let result = scan_file("a/notes.txt".to_string(), &notes, "hello", false);
    let rows = render_result(&result);
    assert_eq!(rows, strings(&["a/notes.txt", "  2:0 hello world"]));

    let readme = strings(&["nothing here"]);
    let result = scan_file("b/readme.md".to_string(), &readme, "hello", false);
    let rows = render_result(&result);
    assert!(rows.is_empty());
}

#[test]
fn scan_records_first_occurrence_only() {
    let lines = strings(&["ab ab ab"]);
    let found = scan_lines(&lines, "ab", false);
    assert_eq!(found.len(), 1);
    assert_eq!(found[0].line, 1);
    assert_eq!(found[0].column, 0);
    assert_eq!(found[0].text, "ab ab ab");
}

#[test]
fn scan_folds_lines_in_case_insensitive_mode() {
    let lines = strings(&["say HELLO there", "no match"]);
    let found = scan_lines(&lines, "hello", true);
    assert_eq!(found.len(), 1);
    assert_eq!(found[0].line, 1);
    assert_eq!(found[0].column, 4);
    // The recorded text is the folded line, as it was compared.
    assert_eq!(found[0].text, "say hello there");
}

#[test]
fn repeated_scans_agree() {
    let lines = strings(&["alpha beta", "beta gamma", "delta"]);
    let a = scan_lines(&lines, "beta", false);
    let b = scan_lines(&lines, "beta", false);
    assert_eq!(a.len(), b.len());
    for (x, y) in a.iter().zip(b.iter()) {
        assert_eq!(x.line, y.line);
        assert_eq!(x.column, y.column);
        assert_eq!(x.text, y.text);
    }
    assert_eq!(a.len(), 2);
    assert_eq!(a[0].line, 1);
    assert_eq!(a[1].line, 2);
}

#[test]
fn scan_of_empty_input_finds_nothing() {
    let no_lines: Vec<String> = Vec::new();
    assert!(scan_lines(&no_lines, "x", false).is_empty());
    let blank = strings(&[""]);
    assert!(scan_lines(&blank, "x", false).is_empty());
}

#[test]
fn folded_config_pattern_drives_the_scan() {
    // The configuration folds the content pattern once; the scanner
    // folds each line and needs no second fold of the pattern.
    let c = Config::new(
        ".".to_string(),
        true,
        None,
        false,
        Some("HeLLo".to_string()),
        true,
        Some("2".to_string()),
        false,
    )
    .ok()
    .unwrap();
    let pattern = c.content.as_deref().unwrap();
    assert_eq!(pattern, "hello");
    let lines = strings(&["say HELLO there"]);
    let found = scan_lines(&lines, pattern, c.ignore_content_case);
    assert_eq!(found.len(), 1);
    assert_eq!(found[0].column, 4);
}

#[test]
fn name_only_result_renders_path_alone() {
    let result = MatchResult { file: "some/path.txt".to_string(), lines: None };
    let rows = render_result(&result);
    assert_eq!(rows, strings(&["some/path.txt"]));
}

#[test]
fn format_usize_renders_decimal() {
    assert_eq!(format_usize(0), "0");
    assert_eq!(format_usize(7), "7");
    assert_eq!(format_usize(10), "10");
    assert_eq!(format_usize(1234), "1234");
}

#[test]
fn parse_dop_accepts_positive_integers_only() {
    assert_eq!(parse_dop("4"), Some(4));
    assert_eq!(parse_dop("007"), Some(7));
    assert_eq!(parse_dop("0"), None);
    assert_eq!(parse_dop(""), None);
    assert_eq!(parse_dop("abc"), None);
    assert_eq!(parse_dop("4x"), None);
    assert_eq!(parse_dop("-3"), None);
    assert_eq!(parse_dop("99999999999999999999999999999"), None);
}

#[test]
fn config_rejects_bad_parallelism_before_anything_else() {
    // Degree of parallelism 0 or non-numeric: construction fails.
    let r = Config::new(
        ".".to_string(),
        true,
        None,
        false,
        Some("x".to_string()),
        false,
        Some("0".to_string()),
        false,
    );
    assert_eq!(r.err(), Some(ConfigError::InvalidParallelism));
    let r = Config::new(
        ".".to_string(),
        false,
        None,
        false,
        None,
        false,
        Some("many".to_string()),
        false,
    );
    assert_eq!(r.err(), Some(ConfigError::InvalidParallelism));
}

#[test]
fn config_rejects_root_that_is_no_directory() {
    let r = Config::new(
        "/no/such/dir".to_string(),
        false,
        None,
        false,
        None,
        false,
        Some("2".to_string()),
        false,
    );
    assert_eq!(r.err(), Some(ConfigError::InvalidRoot));
}

#[test]
fn config_folds_patterns_once_at_construction() {
    let c = Config::new(
        ".".to_string(),
        true,
        Some("NaMe".to_string()),
        true,
        Some("TeXt".to_string()),
        true,
        Some("3".to_string()),
        true,
    )
    .ok()
    .unwrap();
    assert_eq!(c.filename.as_deref(), Some("name"));
    assert_eq!(c.content.as_deref(), Some("text"));
    assert_eq!(c.dop, 3);
    assert!(c.verbose);
    assert_eq!(c.root, ".");
}

#[test]
fn config_keeps_unfolded_patterns_without_the_flags() {
    let c = Config::new(
        ".".to_string(),
        true,
        Some("NaMe".to_string()),
        false,
        Some("TeXt".to_string()),
        false,
        Some("1".to_string()),
        false,
    )
    .ok()
    .unwrap();
    assert_eq!(c.filename.as_deref(), Some("NaMe"));
    assert_eq!(c.content.as_deref(), Some("TeXt"));
}

#[test]
fn config_defaults_parallelism_to_core_count() {
    let c = Config::new(".".to_string(), true, None, false, None, false, None, false)
        .ok()
        .unwrap();
    assert!(c.dop >= 1);
}
