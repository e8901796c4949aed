use threatflux_string_analysis::{
    matches_filter, similarity, StringContext, StringEntry, StringFilter, StringTracker, Timestamp,
};

fn file_string() -> StringContext {
    StringContext::FileString { offset: None }
}

fn at(secs: i64) -> Timestamp {
    Timestamp::new(secs, 0)
}

fn entry(value: &str) -> StringEntry {
    StringEntry {
        value: value.to_string(),
        first_seen: at(100),
        last_seen: at(200),
        total_occurrences: 5,
        unique_files: vec!["/a".to_string(), "/b".to_string()],
        occurrences: Vec::new(),
        categories: vec!["url".to_string(), "network".to_string()],
        is_suspicious: false,
        entropy: 3_000_000,
    }
}

fn sample() -> StringTracker<
    threatflux_string_analysis::DefaultStringAnalyzer,
    threatflux_string_analysis::DefaultCategorizer,
> {
    let mut tracker = StringTracker::new();
    let sightings: Vec<(&str, &str, i64)> = vec![
        ("alpha", "/path/a", 1),
        ("beta", "/path/b", 2),
        ("alpha", "/path/b", 3),
        ("cmd.exe /c whoami", "/path/a", 4),
        ("a1b2c3d4e5f6g7h8i9j0k!l@m#n$", "/path/c", 5),
        ("alpha", "/path/a", 6),
        ("beta", "/path/b", 7),
        ("0123456789abcdefghijklmnopqrstuvwxyzABCDEFGHIJKLMNOPQRSTUVWXYZ", "/path/c", 8),
    ];
    for (value, file, time) in sightings {
        tracker.track_string_at(value, file, "hash", "tool", file_string(), at(time)).unwrap();
    }
    tracker
}

#[test]
fn statistics_without_filter_cover_everything() {
    let stats = sample().get_statistics(None);
    assert_eq!(stats.total_unique_strings, 5);
    assert_eq!(stats.total_occurrences, 8);
    assert_eq!(stats.total_files_analyzed, 3);
    assert_eq!(
        stats.most_common,
        vec![
            ("alpha".to_string(), 3),
            ("beta".to_string(), 2),
            ("cmd.exe /c whoami".to_string(), 1),
            ("a1b2c3d4e5f6g7h8i9j0k!l@m#n$".to_string(), 1),
            ("0123456789abcdefghijklmnopqrstuvwxyzABCDEFGHIJKLMNOPQRSTUVWXYZ".to_string(), 1),
        ]
    );
    assert_eq!(
        stats.suspicious_strings,
        vec![
            "cmd.exe /c whoami".to_string(),
            "a1b2c3d4e5f6g7h8i9j0k!l@m#n$".to_string(),
            "0123456789abcdefghijklmnopqrstuvwxyzABCDEFGHIJKLMNOPQRSTUVWXYZ".to_string(),
        ]
    );
    assert_eq!(
        stats.high_entropy_strings,
        vec![
            (
                "0123456789abcdefghijklmnopqrstuvwxyzABCDEFGHIJKLMNOPQRSTUVWXYZ".to_string(),
                5_954_195
            ),
            ("a1b2c3d4e5f6g7h8i9j0k!l@m#n$".to_string(), 4_807_353),
        ]
    );
    assert_eq!(
        stats.category_distribution,
        vec![
            ("file_string".to_string(), 5),
            ("generic".to_string(), 4),
            ("command".to_string(), 1),
        ]
    );
    assert_eq!(
        stats.length_distribution,
        vec![("0-10".to_string(), 2), ("11-20".to_string(), 1), ("21-50".to_string(), 1), ("51-100".to_string(), 1)]
    );
}

#[test]
fn statistics_with_the_empty_filter_are_those_without_filter() {
    let tracker = sample();
    let with = tracker.get_statistics(Some(&StringFilter::default()));
    let without = tracker.get_statistics(None);
    assert_eq!(with.total_unique_strings, without.total_unique_strings);
    assert_eq!(with.total_occurrences, without.total_occurrences);
    assert_eq!(with.most_common, without.most_common);
    assert_eq!(with.category_distribution, without.category_distribution);
}

#[test]
fn statistics_are_computed_over_the_accepted_entries_only() {
    let tracker = sample();
    let filter = StringFilter { min_occurrences: Some(2), ..Default::default() };
    let stats = tracker.get_statistics(Some(&filter));
    assert_eq!(stats.total_unique_strings, 2);
    assert_eq!(stats.total_occurrences, 5);
    assert_eq!(stats.total_files_analyzed, 2);
    assert_eq!(stats.most_common, vec![("alpha".to_string(), 3), ("beta".to_string(), 2)]);
    assert!(stats.suspicious_strings.is_empty());
    assert!(stats.high_entropy_strings.is_empty());
    assert_eq!(stats.length_distribution, vec![("0-10".to_string(), 2)]);
}

#[test]
fn lists_are_cut_at_their_limits() {
    let mut tracker = StringTracker::new();
    for i in 0..120 {
        // Suspicious for the control character, each value once more than the one before.
        let value = format!("\u{1}value{:03}", i);
        for _ in 0..=(i % 7) {
            tracker.track_string(&value, "/a", "h", "t", file_string()).unwrap();
        }
    }
    let stats = tracker.get_statistics(None);
    assert_eq!(stats.total_unique_strings, 120);
    assert_eq!(stats.most_common.len(), 100);
    assert_eq!(stats.suspicious_strings.len(), 50);
    assert_eq!(stats.suspicious_strings[0], "\u{1}value000");
    assert_eq!(stats.suspicious_strings[49], "\u{1}value049");
    assert_eq!(stats.most_common[0], ("\u{1}value006".to_string(), 7));
    assert_eq!(stats.most_common[1], ("\u{1}value013".to_string(), 7));
    for pair in stats.most_common.windows(2) {
        assert!(pair[0].1 >= pair[1].1);
    }
}

#[test]
fn length_buckets_have_the_stated_bounds() {
    let mut tracker = StringTracker::new();
    for len in [0usize, 10, 11, 20, 21, 50, 51, 100, 101, 200, 201, 300] {
        tracker.track_string(&"x".repeat(len), "/a", "h", "t", file_string()).unwrap();
    }
    // One character of two bytes: counted in bytes, 11, not in characters, 10.
    tracker.track_string("\u{e9}yyyyyyyyy", "/a", "h", "t", file_string()).unwrap();
    let stats = tracker.get_statistics(None);
    assert_eq!(
        stats.length_distribution,
        vec![
            ("0-10".to_string(), 2),
            ("11-20".to_string(), 3),
            ("21-50".to_string(), 2),
            ("51-100".to_string(), 2),
            ("101-200".to_string(), 2),
            ("200+".to_string(), 2),
        ]
    );
}

#[test]
fn filter_without_constraints_accepts() {
    assert!(matches_filter(&entry("x"), None));
    assert!(matches_filter(&entry("x"), Some(&StringFilter::default())));
}

#[test]
fn filter_bounds_are_inclusive() {
    let e = entry("12345");
    let ok = |f: StringFilter| matches_filter(&e, Some(&f));
    assert!(ok(StringFilter { min_occurrences: Some(5), ..Default::default() }));
    assert!(!ok(StringFilter { min_occurrences: Some(6), ..Default::default() }));
    assert!(ok(StringFilter { max_occurrences: Some(5), ..Default::default() }));
    assert!(!ok(StringFilter { max_occurrences: Some(4), ..Default::default() }));
    assert!(ok(StringFilter { min_length: Some(5), ..Default::default() }));
    assert!(!ok(StringFilter { min_length: Some(6), ..Default::default() }));
    assert!(ok(StringFilter { max_length: Some(5), ..Default::default() }));
    assert!(!ok(StringFilter { max_length: Some(4), ..Default::default() }));
    assert!(ok(StringFilter { min_entropy: Some(3_000_000), ..Default::default() }));
    assert!(!ok(StringFilter { min_entropy: Some(3_000_001), ..Default::default() }));
    assert!(ok(StringFilter { max_entropy: Some(3_000_000), ..Default::default() }));
    assert!(!ok(StringFilter { max_entropy: Some(2_999_999), ..Default::default() }));
}

#[test]
fn filter_lists_need_one_common_item() {
    let e = entry("x");
    let ok = |f: StringFilter| matches_filter(&e, Some(&f));
    let list = |items: &[&str]| Some(items.iter().map(|s| s.to_string()).collect::<Vec<_>>());
    assert!(ok(StringFilter { categories: list(&["other", "url"]), ..Default::default() }));
    assert!(!ok(StringFilter { categories: list(&["other"]), ..Default::default() }));
    assert!(!ok(StringFilter { categories: list(&[]), ..Default::default() }));
    assert!(ok(StringFilter { file_paths: list(&["/b"]), ..Default::default() }));
    assert!(!ok(StringFilter { file_paths: list(&["/c"]), ..Default::default() }));
    assert!(ok(StringFilter { file_hashes: list(&["/a"]), ..Default::default() }));
    assert!(!ok(StringFilter { file_hashes: list(&["hash"]), ..Default::default() }));
}

#[test]
fn filter_for_suspicious_strings_only() {
    let calm = entry("x");
    let mut wild = entry("y");
    wild.is_suspicious = true;
    let only = StringFilter { suspicious_only: Some(true), ..Default::default() };
    let any = StringFilter { suspicious_only: Some(false), ..Default::default() };
    assert!(!matches_filter(&calm, Some(&only)));
    assert!(matches_filter(&wild, Some(&only)));
    assert!(matches_filter(&calm, Some(&any)));
    assert!(matches_filter(&wild, Some(&any)));
}

#[test]
fn filter_with_a_regular_expression() {
    let e = entry("alpha");
    let with = |source: &str| {
        StringFilter { regex_pattern: Some(source.to_string()), ..Default::default() }
    };
    assert!(matches_filter(&e, Some(&with("^alpha$"))));
    assert!(matches_filter(&e, Some(&with("lph"))));
    assert!(!matches_filter(&e, Some(&with("^beta$"))));
    // An expression that does not compile is no constraint.
    assert!(matches_filter(&e, Some(&with("["))));
    assert!(matches_filter(&e, Some(&with("(unclosed"))));
}

#[test]
fn filter_with_a_range_of_first_sightings() {
    let e = entry("x");
    let range = |from: i64, to: i64| {
        StringFilter { date_range: Some((at(from), at(to))), ..Default::default() }
    };
    assert!(matches_filter(&e, Some(&range(100, 100))));
    assert!(matches_filter(&e, Some(&range(50, 150))));
    assert!(!matches_filter(&e, Some(&range(101, 300))));
    assert!(!matches_filter(&e, Some(&range(0, 99))));
    let fine = StringFilter {
        date_range: Some((Timestamp::new(100, 0), Timestamp::new(100, 5))),
        ..Default::default()
    };
    let mut late = entry("x");
    late.first_seen = Timestamp::new(100, 6);
    assert!(matches_filter(&e, Some(&fine)));
    assert!(!matches_filter(&late, Some(&fine)));
}

#[test]
fn filter_constraints_are_joined_by_and() {
    let e = entry("alpha");
    let both = StringFilter {
        min_occurrences: Some(1),
        regex_pattern: Some("^beta$".to_string()),
        ..Default::default()
    };
    assert!(!matches_filter(&e, Some(&both)));
    let fine = StringFilter {
        min_occurrences: Some(1),
        max_length: Some(5),
        categories: Some(vec!["network".to_string()]),
        regex_pattern: Some("^alpha$".to_string()),
        ..Default::default()
    };
    assert!(matches_filter(&e, Some(&fine)));
}

#[test]
fn tracker_filters_by_file_and_time() {
    let tracker = sample();
    let by_file = StringFilter { file_paths: Some(vec!["/path/c".to_string()]), ..Default::default() };
    assert_eq!(tracker.get_statistics(Some(&by_file)).total_unique_strings, 2);
    let by_time = StringFilter { date_range: Some((at(2), at(4))), ..Default::default() };
    let stats = tracker.get_statistics(Some(&by_time));
    assert_eq!(stats.total_unique_strings, 2);
    assert_eq!(stats.most_common[0].0, "beta");
}

#[test]
fn similarity_has_the_expected_value() {
    let a = entry("0123456789");
    let mut b = entry("01234");
    // Files 2 of 2, categories 1 of 1, entropy 1 - 0.2 / 0.5, length 5 / 10.
    b.categories = vec!["network".to_string()];
    b.entropy = 3_200_000;
    assert_eq!(similarity(&a, &b), (1_000_000 + 1_000_000 + 600_000 + 500_000) / 4);
    assert_eq!(similarity(&b, &a), 775_000);
}

#[test]
fn similarity_leaves_out_the_factors_that_do_not_apply() {
    let a = entry("0123456789");
    let mut b = entry("012");
    b.unique_files = vec!["/z".to_string()];
    b.categories = vec!["other".to_string()];
    b.entropy = 3_500_000;
    // Only the length counts: 3 / 10.
    assert_eq!(similarity(&a, &b), 300_000);
    b.entropy = 3_499_999;
    // Entropy 1 - 0.499999 / 0.5 = 0.000002, and the length, over 2.
    assert_eq!(similarity(&a, &b), (2 + 300_000) / 2);
    b.unique_files = vec!["/z".to_string(), "/a".to_string(), "/y".to_string()];
    // Files 1 of 2: 800_002 / 3, rounded up.
    assert_eq!(similarity(&a, &b), 266_668);
}

#[test]
fn similarity_of_an_entry_with_itself_is_one() {
    let a = entry("0123456789");
    assert_eq!(similarity(&a, &a), 1_000_000);
}

#[test]
fn similarity_of_two_empty_values_counts_no_length() {
    let mut a = entry("");
    let mut b = entry("");
    a.unique_files = vec!["/1".to_string()];
    b.unique_files = vec!["/2".to_string()];
    a.categories = Vec::new();
    b.entropy = 9_000_000;
    assert_eq!(similarity(&a, &b), 0);
}

#[test]
fn similarity_just_above_the_threshold_counts_as_above() {
    let mut a = entry(&"x".repeat(10_000_000));
    let mut b = entry(&"y".repeat(3_000_001));
    a.unique_files = vec!["/1".to_string()];
    b.unique_files = vec!["/2".to_string()];
    a.categories = vec!["one".to_string()];
    b.categories = vec!["two".to_string()];
    a.entropy = 0;
    b.entropy = 500_000;
    // Only the length counts: 0.3000001, reported rounded up.
    assert_eq!(similarity(&a, &b), 300_001);
    let c = entry(&"z".repeat(3_000_000));
    let mut c = c;
    c.unique_files = vec!["/3".to_string()];
    c.categories = vec!["three".to_string()];
    c.entropy = 600_000;
    // Exactly 0.3 is not above the threshold.
    assert_eq!(similarity(&a, &c), 300_000);
}

#[test]
fn similarity_with_many_factors_is_the_exact_mean_rounded_up() {
    let mut a = entry("0123456");
    let mut b = entry("012");
    a.unique_files = vec!["/1".to_string(), "/2".to_string(), "/3".to_string()];
    b.unique_files = vec!["/1".to_string(), "/4".to_string(), "/5".to_string()];
    a.categories =
        vec!["a".to_string(), "b".to_string(), "c".to_string(), "d".to_string(), "e".to_string(), "f".to_string(), "g".to_string()];
    b.categories = a.categories.iter().take(2).cloned().chain(["x", "y", "z", "u", "v"].iter().map(|s| s.to_string())).collect();
    a.entropy = 1_000_000;
    b.entropy = 1_000_001;
    // 1/3 + 2/7 + 499_999/500_000 + 3/7 over 4 is 0.51190426190...
    assert_eq!(similarity(&a, &b), 511_905);
}
