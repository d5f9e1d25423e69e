use wordfreq::counts::WordCount;
use wordfreq::ignore::IgnoreSet;
use wordfreq::ignore::read_words_to_ignore;
use wordfreq::numeric::word_is_numeric;
use wordfreq::pipeline::analyze;
use wordfreq::pipeline::count_words;
use wordfreq::report::expand_words;
use wordfreq::split::split_words;
use wordfreq::split::trim;
use wordfreq::stats::calculate_statistics;

fn entries_as_pairs(entries: &[WordCount]) -> Vec<(String, usize)> {
    entries.iter().map(|e| (e.word.clone(), e.count)).collect()
}

fn run(files: &[&str], ignores: &[&str], min_len: usize, top: Option<usize>) -> (usize, Vec<(String, usize)>) {
    let files: Vec<String> = files.iter().map(|s| s.to_string()).collect();
    let ignores: Vec<String> = ignores.iter().map(|s| s.to_string()).collect();
    let (sum, entries) = analyze(&files, &ignores, min_len, top);
    (sum, entries_as_pairs(&entries))
}

const SCENARIO_TEXT: &str = "The cat sat on the mat. The cat ran.";

#[test]
fn scenario_basic_counts() {
    let (sum, entries) = run(&[SCENARIO_TEXT], &[], 3, None);
    assert_eq!(sum, 8);
    // Descending by count, ties broken lexicographically ascending ('T' < 'c').
    assert_eq!(
        entries,
        vec![
            ("The".to_string(), 2),
            ("cat".to_string(), 2),
            ("mat".to_string(), 1),
            ("ran".to_string(), 1),
            ("sat".to_string(), 1),
            ("the".to_string(), 1),
        ]
    );
}

#[test]
fn scenario_top_two() {
    let (sum, entries) = run(&[SCENARIO_TEXT], &[], 3, Some(2));
    assert_eq!(sum, 4);
    assert_eq!(entries, vec![("The".to_string(), 2), ("cat".to_string(), 2)]);
    // Each entry holds half the truncated sum: 50.00% as the stats report shows it.
    for (_, count) in &entries {
        let pct = *count as f64 / sum as f64 * 100.0;
        assert!((pct - 50.0).abs() < 0.01);
        assert_eq!(format!("{pct:.2}"), "50.00");
    }
}

#[test]
fn scenario_case_sensitive_ignore() {
    let (sum, entries) = run(&[SCENARIO_TEXT], &["the\nThe\n"], 3, None);
    assert_eq!(sum, 5);
    assert_eq!(
        entries,
        vec![
            ("cat".to_string(), 2),
            ("mat".to_string(), 1),
            ("ran".to_string(), 1),
            ("sat".to_string(), 1),
        ]
    );
}

#[test]
fn scenario_huge_digit_string_is_kept() {
    // Fifty digits: too large for an unsigned 128-bit integer, so the
    // numeric-exclusion rule does not fire and the word is retained.
    let huge = "12345678901234567890123456789012345678901234567890";
    assert!(!word_is_numeric(huge));
    let (sum, entries) = run(&[huge], &[], 3, None);
    assert_eq!(sum, 1);
    assert_eq!(entries, vec![(huge.to_string(), 1)]);
}

#[test]
fn numeric_boundary_u128() {
    assert!(word_is_numeric("0"));
    assert!(word_is_numeric("42"));
    assert!(word_is_numeric("00000000000000000000000000000000000000001"));
    // Exactly u128::MAX is numeric; one more is not.
    assert!(word_is_numeric("340282366920938463463374607431768211455"));
    assert!(!word_is_numeric("340282366920938463463374607431768211456"));
    assert!(!word_is_numeric(""));
    assert!(!word_is_numeric("12a3"));
    assert!(!word_is_numeric("-5"));
}

#[test]
fn numeric_words_are_filtered() {
    let (sum, entries) = run(&["42 4242 cat dog"], &[], 3, None);
    assert_eq!(sum, 2);
    assert_eq!(entries, vec![("cat".to_string(), 1), ("dog".to_string(), 1)]);
}

#[test]
fn scenario_words_mode_expansion() {
    let entries = vec![WordCount { word: "cat".to_string(), count: 3 }];
    let lines = expand_words(&entries);
    assert_eq!(lines, vec!["cat".to_string(), "cat".to_string(), "cat".to_string()]);
}

#[test]
fn words_mode_order_and_adjacency() {
    let (_, entries) = analyze(&vec![SCENARIO_TEXT.to_string()], &Vec::new(), 3, Some(2));
    let lines = expand_words(&entries);
    assert_eq!(
        lines,
        vec![
            "The".to_string(),
            "The".to_string(),
            "cat".to_string(),
            "cat".to_string(),
        ]
    );
}

#[test]
fn truncation_is_min_of_limit_and_distinct() {
    // Six distinct filtered words in the scenario text.
    for (limit, expect) in [(0usize, 0usize), (1, 1), (6, 6), (100, 6)] {
        let (_, entries) = run(&[SCENARIO_TEXT], &[], 3, Some(limit));
        assert_eq!(entries.len(), expect.min(6));
    }
    let (_, entries) = run(&[SCENARIO_TEXT], &[], 3, None);
    assert_eq!(entries.len(), 6);
}

#[test]
fn limit_zero_yields_empty_report() {
    let (sum, entries) = run(&[SCENARIO_TEXT], &[], 3, Some(0));
    assert_eq!(sum, 0);
    assert!(entries.is_empty());
}

#[test]
fn empty_input_yields_empty_report() {
    let (sum, entries) = run(&[], &[], 3, None);
    assert_eq!(sum, 0);
    assert!(entries.is_empty());
}

#[test]
fn sum_matches_retained_counts_and_percentages_total_100() {
    for top in [None, Some(1), Some(3), Some(6)] {
        let (sum, entries) = run(&[SCENARIO_TEXT], &[], 3, top);
        let total: usize = entries.iter().map(|(_, c)| c).sum();
        assert_eq!(sum, total);
        if sum > 0 {
            let pct_total: f64 =
                entries.iter().map(|(_, c)| *c as f64 / sum as f64 * 100.0).sum();
            assert!((pct_total - 100.0).abs() < 0.01);
        }
    }
}

#[test]
fn pipeline_is_deterministic() {
    let first = run(&[SCENARIO_TEXT, "more cats than dogs"], &["the\n"], 3, Some(4));
    let second = run(&[SCENARIO_TEXT, "more cats than dogs"], &["the\n"], 3, Some(4));
    assert_eq!(first, second);
}

#[test]
fn ignore_lines_are_trimmed() {
    let padded = run(&[SCENARIO_TEXT], &["  cat  \n   \n"], 3, None);
    let plain = run(&[SCENARIO_TEXT], &["cat"], 3, None);
    assert_eq!(padded, plain);
    assert!(!padded.1.iter().any(|(w, _)| w == "cat"));
}

#[test]
fn ignore_files_with_carriage_returns() {
    // A carriage return is whitespace, so CRLF line endings trim away.
    let crlf = run(&[SCENARIO_TEXT], &["cat\r\nmat\r\n"], 3, None);
    let lf = run(&[SCENARIO_TEXT], &["cat\nmat\n"], 3, None);
    assert_eq!(crlf, lf);
    assert!(!crlf.1.iter().any(|(w, _)| w == "cat" || w == "mat"));
}

#[test]
fn ignore_set_unions_all_files() {
    let (sum, entries) = run(&[SCENARIO_TEXT], &["The\n", "cat\nmat"], 3, None);
    assert_eq!(sum, 3);
    assert_eq!(
        entries,
        vec![
            ("ran".to_string(), 1),
            ("sat".to_string(), 1),
            ("the".to_string(), 1),
        ]
    );
}

#[test]
fn ignore_matching_is_exact() {
    let ignore_texts = vec!["Cat\ncats\n".to_string()];
    let ignore = read_words_to_ignore(&ignore_texts);
    assert!(ignore.contains(&"Cat".to_string()));
    assert!(ignore.contains(&"cats".to_string()));
    assert!(!ignore.contains(&"cat".to_string()));
    assert!(!ignore.contains(&"Cats".to_string()));
}

#[test]
fn files_are_concatenated_in_order() {
    let (sum, entries) = run(&["cat dog", "dog emu"], &[], 3, None);
    assert_eq!(sum, 4);
    assert_eq!(
        entries,
        vec![
            ("dog".to_string(), 2),
            ("cat".to_string(), 1),
            ("emu".to_string(), 1),
        ]
    );
}

#[test]
fn separators_split_words() {
    let tokens = split_words("a*b.c,d{e}f(g)h[i]j:k;l?m'n\"o<p>q\\r/s=t+u-v@w!x|y#z&0%1$2");
    let words: Vec<String> = tokens.into_iter().filter(|t| !t.is_empty()).collect();
    assert_eq!(words.len(), 29);
    assert_eq!(words[0], "a");
    assert_eq!(words[28], "2");
}

#[test]
fn empty_words_count_when_minimum_is_zero() {
    // Between two adjacent separators sits an empty candidate word; with a
    // minimum length of zero nothing filters it out.
    let (sum, entries) = run(&["a..b"], &[], 0, None);
    assert_eq!(sum, 3);
    assert_eq!(
        entries,
        vec![
            ("".to_string(), 1),
            ("a".to_string(), 1),
            ("b".to_string(), 1),
        ]
    );
}

#[test]
fn length_is_counted_in_characters() {
    // Two characters, four bytes: shorter than three, so filtered out.
    let (sum, entries) = run(&["éé ééé"], &[], 3, None);
    assert_eq!(sum, 1);
    assert_eq!(entries, vec![("ééé".to_string(), 1)]);
}

#[test]
fn trim_removes_surrounding_whitespace_only() {
    assert_eq!(trim("  hello  "), "hello");
    assert_eq!(trim("hello"), "hello");
    assert_eq!(trim("\t a b \u{2003}"), "a b");
    assert_eq!(trim("   "), "");
    assert_eq!(trim(""), "");
}

#[test]
fn statistics_sorts_and_truncates_directly() {
    let counts = vec![
        WordCount { word: "pear".to_string(), count: 1 },
        WordCount { word: "apple".to_string(), count: 5 },
        WordCount { word: "plum".to_string(), count: 5 },
        WordCount { word: "fig".to_string(), count: 2 },
    ];
    let (sum, entries) = calculate_statistics(counts, Some(3));
    assert_eq!(sum, 12);
    assert_eq!(
        entries_as_pairs(&entries),
        vec![
            ("apple".to_string(), 5),
            ("plum".to_string(), 5),
            ("fig".to_string(), 2),
        ]
    );
}

#[test]
fn count_words_reports_each_occurrence() {
    let texts = vec!["cat cat dog".to_string(), "dog cat".to_string()];
    let ignore = IgnoreSet::new();
    let counts = count_words(&texts, 3, &ignore);
    let mut pairs = entries_as_pairs(&counts);
    pairs.sort();
    assert_eq!(pairs, vec![("cat".to_string(), 3), ("dog".to_string(), 2)]);
}
