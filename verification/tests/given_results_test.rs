use threatflux_string_analysis::analyzer::assess;
use threatflux_string_analysis::filter::matches_filter_given;
use threatflux_string_analysis::matcher::{is_valid_regex, regex_is_match, regex_verdict_on};
use threatflux_string_analysis::patterns::{put_pattern, replace_pattern, take_pattern};
use threatflux_string_analysis::queries::search_among;
use threatflux_string_analysis::{Pattern, StringEntry, StringFilter, Timestamp};

fn pattern(name: &str, category: &str, suspicious: bool) -> Pattern {
    Pattern {
        name: name.to_string(),
        regex: name.to_string(),
        category: category.to_string(),
        description: String::new(),
        is_suspicious: suspicious,
        severity: 3,
    }
}

fn entry(value: &str, seen: usize) -> StringEntry {
    StringEntry {
        value: value.to_string(),
        first_seen: Timestamp::new(0, 0),
        last_seen: Timestamp::new(0, 0),
        total_occurrences: seen,
        unique_files: vec!["/a".to_string()],
        occurrences: Vec::new(),
        categories: vec!["c".to_string()],
        is_suspicious: false,
        entropy: 0,
    }
}

#[test]
fn assessment_of_given_matches() {
    let patterns = vec![
        pattern("a", "one", true),
        pattern("b", "two", false),
        pattern("c", "one", true),
        pattern("d", "three", true),
    ];
    let r = assess(&patterns, &vec![true, true, true, false], 1_500_000, false, 4_500_000);
    assert_eq!(r.entropy, 1_500_000);
    assert!(r.is_suspicious);
    let names: Vec<&str> =
        r.suspicious_indicators.iter().map(|i| i.pattern_name.as_str()).collect();
    assert_eq!(names, vec!["a", "c"]);
    assert_eq!(r.suspicious_indicators[1].category, "one");
    assert_eq!(r.suspicious_indicators[1].severity, 3);
    assert_eq!(r.categories, vec!["one".to_string(), "two".to_string()]);
}

#[test]
fn assessment_without_matches_depends_on_the_signals() {
    let patterns = vec![pattern("a", "one", true)];
    let calm = assess(&patterns, &vec![false], 4_500_000, false, 4_500_000);
    assert!(!calm.is_suspicious);
    assert!(calm.suspicious_indicators.is_empty());
    assert!(calm.categories.is_empty());
    let hot = assess(&patterns, &vec![false], 4_500_001, false, 4_500_000);
    assert!(hot.is_suspicious);
    assert_eq!(hot.suspicious_indicators[0].pattern_name, "high_entropy");
    let odd = assess(&patterns, &vec![false], 0, true, 4_500_000);
    assert!(odd.is_suspicious);
    assert_eq!(odd.suspicious_indicators[0].pattern_name, "non_printable_chars");
    let both = assess(&patterns, &vec![true], 5_000_000, true, 4_500_000);
    let names: Vec<&str> =
        both.suspicious_indicators.iter().map(|i| i.pattern_name.as_str()).collect();
    assert_eq!(names, vec!["a", "non_printable_chars", "high_entropy"]);
}

#[test]
fn assessment_passes_over_patterns_without_a_flag() {
    let patterns = vec![pattern("a", "one", true), pattern("b", "two", true)];
    let r = assess(&patterns, &vec![true], 0, false, 0);
    assert_eq!(r.suspicious_indicators.len(), 1);
    assert_eq!(r.categories, vec!["one".to_string()]);
}

#[test]
fn filter_with_a_given_verdict() {
    let e = entry("alpha", 2);
    let f = StringFilter { min_occurrences: Some(2), ..Default::default() };
    assert!(matches_filter_given(&e, &f, None));
    assert!(matches_filter_given(&e, &f, Some(true)));
    assert!(!matches_filter_given(&e, &f, Some(false)));
    let strict = StringFilter { min_occurrences: Some(3), ..Default::default() };
    assert!(!matches_filter_given(&e, &strict, Some(true)));
}

#[test]
fn search_among_given_texts() {
    let entries = vec![entry("Xa", 1), entry("Xb", 5), entry("Y", 9), entry("Xc", 5)];
    let lowered: Vec<Vec<char>> =
        vec!["xa", "xb", "y", "xc"].into_iter().map(|s| s.chars().collect()).collect();
    let needle: Vec<char> = "x".chars().collect();
    let found: Vec<String> =
        search_among(&entries, &lowered, &needle, 10).into_iter().map(|e| e.value).collect();
    assert_eq!(found, vec!["Xb", "Xc", "Xa"]);
    let two: Vec<String> =
        search_among(&entries, &lowered, &needle, 2).into_iter().map(|e| e.value).collect();
    assert_eq!(two, vec!["Xb", "Xc"]);
    let short: Vec<Vec<char>> = vec!["xa".chars().collect()];
    assert_eq!(search_among(&entries, &short, &needle, 10).len(), 1);
    let empty: Vec<char> = Vec::new();
    assert_eq!(search_among(&entries, &lowered, &empty, 10).len(), 4);
}

#[test]
fn verdict_of_the_engine() {
    assert_eq!(regex_verdict_on("a+b", "xaab"), Some(true));
    assert_eq!(regex_verdict_on("a+b", "xaa"), Some(false));
    assert_eq!(regex_verdict_on("a+(b", "xaab"), None);
    assert_eq!(regex_verdict_on("", ""), Some(true));
    assert!(is_valid_regex("^\\d{3}$"));
    assert!(!is_valid_regex("^\\d{3"));
    assert!(regex_is_match("^\\d{3}$", "123"));
    assert!(!regex_is_match("^\\d{3}$", "1234"));
    assert!(!regex_is_match("[", "["));
}

#[test]
fn put_replaces_the_first_of_a_name_or_appends() {
    let mut list = vec![pattern("a", "1", true), pattern("b", "2", true), pattern("a", "3", true)];
    put_pattern(&mut list, pattern("a", "new", false));
    let shown: Vec<(&str, &str)> =
        list.iter().map(|p| (p.name.as_str(), p.category.as_str())).collect();
    assert_eq!(shown, vec![("a", "new"), ("b", "2"), ("a", "3")]);
    put_pattern(&mut list, pattern("z", "9", false));
    assert_eq!(list.len(), 4);
    assert_eq!(list[3].name, "z");
}

#[test]
fn replace_and_take_report_whether_the_name_was_there() {
    let mut list = vec![pattern("a", "1", true), pattern("b", "2", true)];
    assert!(!replace_pattern(&mut list, pattern("c", "3", true)));
    assert_eq!(list.len(), 2);
    assert!(replace_pattern(&mut list, pattern("b", "4", true)));
    assert_eq!(list[1].category, "4");
    assert!(!take_pattern(&mut list, &"c".to_string()));
    assert!(take_pattern(&mut list, &"a".to_string()));
    assert_eq!(list.len(), 1);
    assert_eq!(list[0].name, "b");
}
