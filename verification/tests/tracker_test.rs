use threatflux_string_analysis::tracker::{derive_context, prefix_before};
use threatflux_string_analysis::{
    Categorizer, Category, DefaultCategorizer, DefaultStringAnalyzer, Pattern,
    StringAnalysisResult, StringAnalyzer, StringContext, StringTracker, SuspiciousIndicator,
    Timestamp, TrackError,
};

fn file_string() -> StringContext {
    StringContext::FileString { offset: None }
}

fn at(secs: i64) -> Timestamp {
    Timestamp::new(secs, 0)
}

#[test]
fn new_tracker_is_empty() {
    let tracker = StringTracker::new();
    assert_eq!(tracker.len(), 0);
    assert_eq!(tracker.max_occurrences(), 1000);
    assert!(tracker.get_string_details("anything").is_none());
    let stats = tracker.get_statistics(None);
    assert_eq!(stats.total_unique_strings, 0);
    assert_eq!(stats.total_occurrences, 0);
    assert_eq!(stats.total_files_analyzed, 0);
    assert!(stats.most_common.is_empty());
    assert!(stats.category_distribution.is_empty());
    assert!(stats.length_distribution.is_empty());
}

#[test]
fn default_tracker_is_like_new() {
    let tracker: StringTracker<DefaultStringAnalyzer, DefaultCategorizer> = Default::default();
    assert_eq!(tracker.len(), 0);
    assert_eq!(tracker.max_occurrences(), 1000);
}

#[test]
fn tracking_a_value_twice_gives_one_entry_counted_twice() {
    let mut tracker = StringTracker::new();
    tracker.track_string("value", "/a", "h1", "tool", file_string()).unwrap();
    tracker.track_string("value", "/a", "h1", "tool", file_string()).unwrap();
    assert_eq!(tracker.len(), 1);
    let entry = tracker.get_string_details("value").unwrap();
    assert_eq!(entry.value, "value");
    assert_eq!(entry.total_occurrences, 2);
    assert_eq!(entry.occurrences.len(), 2);
    assert_eq!(entry.unique_files, vec!["/a".to_string()]);
    assert_eq!(tracker.get_statistics(None).total_unique_strings, 1);
}

#[test]
fn first_sighting_fixes_what_is_known_of_the_string() {
    let mut tracker = StringTracker::new();
    tracker
        .track_string_at("cmd.exe /c whoami", "/a", "h", "t", file_string(), at(10))
        .unwrap();
    tracker
        .track_string_at(
            "cmd.exe /c whoami",
            "/b",
            "h2",
            "t2",
            StringContext::Other { category: "later".to_string() },
            at(20),
        )
        .unwrap();
    let entry = tracker.get_string_details("cmd.exe /c whoami").unwrap();
    assert_eq!(entry.first_seen, at(10));
    assert_eq!(entry.last_seen, at(20));
    assert!(entry.is_suspicious);
    assert_eq!(entry.entropy, 3_616_874);
    assert_eq!(
        entry.categories,
        vec!["file_string".to_string(), "command".to_string()]
    );
    assert_eq!(entry.unique_files, vec!["/a".to_string(), "/b".to_string()]);
    assert_eq!(entry.occurrences[1].file_hash, "h2");
    assert_eq!(entry.occurrences[1].tool_name, "t2");
    assert_eq!(entry.occurrences[1].timestamp, at(20));
}

#[test]
fn categories_join_context_categorizer_and_analysis() {
    let mut tracker = StringTracker::new();
    tracker
        .track_string_at(
            "https://example.com/x",
            "/a",
            "h",
            "t",
            StringContext::Other { category: "custom".to_string() },
            at(1),
        )
        .unwrap();
    let entry = tracker.get_string_details("https://example.com/x").unwrap();
    assert_eq!(
        entry.categories,
        vec!["custom".to_string(), "url".to_string(), "network".to_string()]
    );
    assert!(!entry.is_suspicious);
}

#[test]
fn context_names_its_category() {
    let cases = vec![
        (StringContext::FileString { offset: Some(3) }, "file_string"),
        (StringContext::Import { library: "l".to_string() }, "import"),
        (StringContext::Export { symbol: "s".to_string() }, "export"),
        (StringContext::Resource { resource_type: "r".to_string() }, "resource"),
        (StringContext::Section { section_name: "s".to_string() }, "section"),
        (StringContext::Metadata { field: "f".to_string() }, "metadata"),
        (StringContext::Path { path_type: "p".to_string() }, "path"),
        (StringContext::Url { protocol: None }, "url"),
        (StringContext::Registry { hive: None }, "registry"),
        (StringContext::Command { command_type: "c".to_string() }, "command"),
        (StringContext::Other { category: "mine".to_string() }, "mine"),
    ];
    for (context, name) in cases {
        assert_eq!(context.category_name(), name);
    }
}

#[test]
fn occurrence_list_is_held_to_the_cap_and_counters_are_not() {
    let mut tracker = StringTracker::new().with_max_occurrences(3);
    for i in 0..5 {
        let file = format!("/file{}", i);
        tracker.track_string_at("hot", &file, "h", "t", file_string(), at(i)).unwrap();
        let entry = tracker.get_string_details("hot").unwrap();
        assert!(entry.occurrences.len() <= 3);
        assert_eq!(entry.total_occurrences, (i + 1) as usize);
        assert_eq!(entry.unique_files.len(), (i + 1) as usize);
    }
    let entry = tracker.get_string_details("hot").unwrap();
    let kept: Vec<i64> = entry.occurrences.iter().map(|o| o.timestamp.secs).collect();
    assert_eq!(kept, vec![2, 3, 4]);
    assert_eq!(entry.first_seen, at(0));
    assert_eq!(entry.last_seen, at(4));
}

#[test]
fn cap_of_zero_lists_nothing_and_still_counts() {
    let mut tracker = StringTracker::new().with_max_occurrences(0);
    tracker.track_string("x", "/a", "h", "t", file_string()).unwrap();
    tracker.track_string("x", "/b", "h", "t", file_string()).unwrap();
    let entry = tracker.get_string_details("x").unwrap();
    assert!(entry.occurrences.is_empty());
    assert_eq!(entry.total_occurrences, 2);
    assert_eq!(entry.unique_files.len(), 2);
}

#[test]
fn details_are_a_copy() {
    let mut tracker = StringTracker::new();
    tracker.track_string("x", "/a", "h", "t", file_string()).unwrap();
    let mut copy = tracker.get_string_details("x").unwrap();
    copy.total_occurrences = 99;
    assert_eq!(tracker.get_string_details("x").unwrap().total_occurrences, 1);
    assert!(tracker.get_string_details("X").is_none());
    assert!(tracker.get_string_details("").is_none());
}

#[test]
fn clear_forgets_everything() {
    let mut tracker = StringTracker::new().with_max_occurrences(7);
    tracker.track_string("x", "/a", "h", "t", file_string()).unwrap();
    tracker.track_string("y", "/a", "h", "t", file_string()).unwrap();
    tracker.clear();
    assert_eq!(tracker.len(), 0);
    assert_eq!(tracker.max_occurrences(), 7);
    assert!(tracker.get_string_details("x").is_none());
    tracker.track_string("x", "/a", "h", "t", file_string()).unwrap();
    assert_eq!(tracker.get_string_details("x").unwrap().total_occurrences, 1);
}

#[test]
fn track_string_reads_a_plausible_clock() {
    let mut tracker = StringTracker::new();
    tracker.track_string("x", "/a", "h", "t", file_string()).unwrap();
    let entry = tracker.get_string_details("x").unwrap();
    // Later than 2020-01-01 and a valid count of nanoseconds.
    assert!(entry.first_seen.secs > 1_577_836_800);
    assert!(entry.first_seen.nanos < 2_000_000_000);
    assert_eq!(entry.first_seen, entry.last_seen);
    assert_eq!(entry.occurrences[0].timestamp, entry.first_seen);
}

#[test]
fn search_with_an_empty_or_blank_query_finds_nothing() {
    let mut tracker = StringTracker::new();
    tracker.track_string("alpha", "/a", "h", "t", file_string()).unwrap();
    tracker.track_string(" ", "/a", "h", "t", file_string()).unwrap();
    assert!(tracker.search_strings("", 10).is_empty());
    assert!(tracker.search_strings("   ", 10).is_empty());
    assert!(tracker.search_strings("\t\n", 10).is_empty());
    assert!(tracker.search_strings("\u{2003}", 10).is_empty());
    assert_eq!(tracker.search_strings("a", 10).len(), 1);
}

#[test]
fn search_ignores_letter_case() {
    let mut tracker = StringTracker::new();
    tracker.track_string("Alpha Centauri", "/a", "h", "t", file_string()).unwrap();
    tracker.track_string("STRASSE \u{c9}T\u{c9}", "/a", "h", "t", file_string()).unwrap();
    assert_eq!(tracker.search_strings("ALPHA", 10).len(), 1);
    assert_eq!(tracker.search_strings("alpha c", 10)[0].value, "Alpha Centauri");
    assert_eq!(tracker.search_strings("\u{e9}t\u{e9}", 10).len(), 1);
    assert!(tracker.search_strings("beta", 10).is_empty());
}

#[test]
fn search_lists_the_most_seen_first_up_to_the_limit() {
    let mut tracker = StringTracker::new();
    for (value, times) in [("xa", 1), ("xb", 3), ("xc", 2), ("xd", 3), ("y", 9)] {
        for _ in 0..times {
            tracker.track_string(value, "/a", "h", "t", file_string()).unwrap();
        }
    }
    let all: Vec<String> = tracker.search_strings("x", 10).into_iter().map(|e| e.value).collect();
    assert_eq!(all, vec!["xb", "xd", "xc", "xa"]);
    let two: Vec<String> = tracker.search_strings("x", 2).into_iter().map(|e| e.value).collect();
    assert_eq!(two, vec!["xb", "xd"]);
    assert!(tracker.search_strings("x", 0).is_empty());
}

#[test]
fn related_strings_of_an_untracked_value_are_none() {
    let mut tracker = StringTracker::new();
    tracker.track_string("alpha", "/a", "h", "t", file_string()).unwrap();
    assert!(tracker.get_related_strings("beta", 10).is_empty());
    assert!(tracker.get_related_strings("", 10).is_empty());
}

#[test]
fn related_strings_leave_out_the_value_and_the_unlike() {
    let mut tracker = StringTracker::new();
    tracker.track_string_at("alpha", "/path/a", "h", "t", file_string(), at(1)).unwrap();
    tracker.track_string_at("beta", "/path/a", "h", "t", file_string(), at(2)).unwrap();
    tracker.track_string_at("gamma", "/path/b", "h", "t", file_string(), at(3)).unwrap();
    let long = "https://example.com/a/very/long/path/with/16/or/more/distinct/characters?q=xyz";
    tracker
        .track_string_at(long, "/path/c", "h", "t", StringContext::Url { protocol: None }, at(4))
        .unwrap();
    let related = tracker.get_related_strings("alpha", 10);
    assert!(related.iter().all(|(value, _)| value != "alpha"));
    assert!(related.iter().all(|(_, score)| *score > 300_000 && *score <= 1_000_000));
    assert!(related.iter().all(|(value, _)| value != long));
    let names: Vec<&str> = related.iter().map(|(v, _)| v.as_str()).collect();
    assert_eq!(names, vec!["beta", "gamma"]);
}

#[test]
fn related_strings_have_the_expected_scores() {
    let mut tracker = StringTracker::new();
    tracker.track_string_at("alpha", "/path/a", "h", "t", file_string(), at(1)).unwrap();
    tracker.track_string_at("beta", "/path/a", "h", "t", file_string(), at(2)).unwrap();
    tracker.track_string_at("delta", "/path/b", "h", "t", file_string(), at(3)).unwrap();
    let related = tracker.get_related_strings("alpha", 10);
    // beta: files 1, categories 1, entropy 1 - 2 * 0.078072, length 4/5, over 4.
    // delta: categories 1, entropy 1 - 2 * 0.4, length 1, over 3, rounded up.
    assert_eq!(
        related,
        vec![("beta".to_string(), 910_964), ("delta".to_string(), 733_334)]
    );
    assert_eq!(tracker.get_related_strings("alpha", 1), vec![("beta".to_string(), 910_964)]);
    assert!(tracker.get_related_strings("alpha", 0).is_empty());
    let back = tracker.get_related_strings("beta", 10);
    assert_eq!(back[0], ("alpha".to_string(), 910_964));
}

#[test]
fn batch_gives_each_string_the_context_of_its_labels() {
    let mut tracker = StringTracker::new();
    let strings = vec![
        "https://example.com/usr".to_string(),
        "/usr/bin/bash".to_string(),
        "C:\\Temp\\x.dll".to_string(),
        "./relative".to_string(),
        "HKLM\\Software\\Run".to_string(),
        "kernel32.dll".to_string(),
        "cmd.exe /c dir".to_string(),
        "CreateProcess".to_string(),
        "plain text".to_string(),
    ];
    tracker.track_strings_from_results_at(&strings, "/scan", "hash", "strings", at(5)).unwrap();
    assert_eq!(tracker.len(), 9);
    let context = |value: &str| {
        let entry = tracker.get_string_details(value).unwrap();
        assert_eq!(entry.occurrences[0].file_path, "/scan");
        assert_eq!(entry.occurrences[0].file_hash, "hash");
        assert_eq!(entry.occurrences[0].tool_name, "strings");
        assert_eq!(entry.occurrences[0].timestamp, at(5));
        format!("{:?}", entry.occurrences[0].context)
    };
    assert_eq!(context("https://example.com/usr"), "Url { protocol: Some(\"https\") }");
    assert_eq!(context("/usr/bin/bash"), "Path { path_type: \"system\" }");
    assert_eq!(context("C:\\Temp\\x.dll"), "Path { path_type: \"temp\" }");
    assert_eq!(context("./relative"), "Path { path_type: \"general\" }");
    assert_eq!(context("HKLM\\Software\\Run"), "Registry { hive: Some(\"HKLM\") }");
    assert_eq!(context("kernel32.dll"), "Import { library: \"kernel32.dll\" }");
    assert_eq!(context("cmd.exe /c dir"), "Command { command_type: \"shell\" }");
    assert_eq!(context("CreateProcess"), "FileString { offset: None }");
    assert_eq!(context("plain text"), "FileString { offset: None }");
}

#[test]
fn batch_counts_repeated_strings() {
    let mut tracker = StringTracker::new();
    let strings = vec!["a".to_string(), "b".to_string(), "a".to_string()];
    tracker.track_strings_from_results(&strings, "/scan", "hash", "strings").unwrap();
    assert_eq!(tracker.len(), 2);
    assert_eq!(tracker.get_string_details("a").unwrap().total_occurrences, 2);
    tracker.track_strings_from_results(&Vec::new(), "/scan", "hash", "strings").unwrap();
    assert_eq!(tracker.len(), 2);
}

#[test]
fn prefix_before_cuts_at_the_first_occurrence() {
    assert_eq!(prefix_before("https://a://b", "://"), "https");
    assert_eq!(prefix_before("no delimiter", "://"), "no delimiter");
    assert_eq!(prefix_before("://x", "://"), "");
    assert_eq!(prefix_before("\u{e9}\u{e9}\\x", "\\"), "\u{e9}\u{e9}");
    assert_eq!(prefix_before("", "x"), "");
}

#[test]
fn derive_context_follows_the_precedence() {
    let labelled = |names: &[&str]| -> Vec<Category> {
        names.iter().map(|n| Category { name: n.to_string(), severity: None }).collect()
    };
    let show = |value: &str, names: &[&str]| format!("{:?}", derive_context(value, &labelled(names)));
    assert_eq!(
        show("x", &["command", "library", "registry", "path", "url"]),
        "Url { protocol: Some(\"x\") }"
    );
    assert_eq!(
        show("/tmp/x", &["command", "library", "registry", "path"]),
        "Path { path_type: \"temp\" }"
    );
    assert_eq!(
        show("a\\b", &["command", "library", "registry"]),
        "Registry { hive: Some(\"a\") }"
    );
    assert_eq!(show("x", &["command", "library"]), "Import { library: \"x\" }");
    assert_eq!(show("x", &["command"]), "Command { command_type: \"shell\" }");
    assert_eq!(show("x", &["generic", "email"]), "FileString { offset: None }");
    assert_eq!(show("x", &[]), "FileString { offset: None }");
}

struct FixedAnalyzer;

impl StringAnalyzer for FixedAnalyzer {
    fn analyze(&self, value: &str) -> StringAnalysisResult {
        StringAnalysisResult {
            entropy: 7,
            is_suspicious: value.starts_with('!'),
            suspicious_indicators: vec![SuspiciousIndicator {
                pattern_name: "fixed".to_string(),
                category: "double".to_string(),
                severity: 1,
            }],
            categories: vec!["from_analysis".to_string(), "shared".to_string()],
        }
    }
}

struct FixedCategorizer;

impl Categorizer for FixedCategorizer {
    fn categorize(&self, _value: &str) -> Vec<Category> {
        vec![
            Category { name: "shared".to_string(), severity: Some(2) },
            Category { name: "from_categorizer".to_string(), severity: None },
        ]
    }
}

#[test]
fn tracker_uses_the_components_it_is_given() {
    let mut tracker = StringTracker::with_components(FixedAnalyzer, FixedCategorizer);
    tracker.track_string("!bang", "/a", "h", "t", file_string()).unwrap();
    tracker.track_string("calm", "/a", "h", "t", file_string()).unwrap();
    let bang = tracker.get_string_details("!bang").unwrap();
    assert!(bang.is_suspicious);
    assert_eq!(bang.entropy, 7);
    assert_eq!(
        bang.categories,
        vec![
            "file_string".to_string(),
            "shared".to_string(),
            "from_categorizer".to_string(),
            "from_analysis".to_string()
        ]
    );
    assert!(!tracker.get_string_details("calm").unwrap().is_suspicious);
}

#[test]
fn pattern_added_later_does_not_change_known_entries() {
    let mut analyzer = DefaultStringAnalyzer::new();
    let mut tracker = StringTracker::with_components(
        DefaultStringAnalyzer::new(),
        DefaultCategorizer::new(),
    );
    tracker.track_string("marker", "/a", "h", "t", file_string()).unwrap();
    analyzer
        .add_pattern(Pattern {
            name: "m".to_string(),
            regex: "marker".to_string(),
            category: "c".to_string(),
            description: String::new(),
            is_suspicious: true,
            severity: 1,
        })
        .unwrap();
    tracker.track_string("marker", "/b", "h", "t", file_string()).unwrap();
    let entry = tracker.get_string_details("marker").unwrap();
    assert!(!entry.is_suspicious);
    assert_eq!(entry.total_occurrences, 2);
}

#[test]
fn track_error_describes_itself() {
    assert_eq!(TrackError::CounterSaturated.message(), "occurrence counter is saturated");
}

#[test]
fn timestamps_are_ordered_by_seconds_then_nanoseconds() {
    let a = Timestamp::new(1, 999_999_999);
    let b = Timestamp::new(2, 0);
    assert!(a.is_not_after(&b));
    assert!(!b.is_not_after(&a));
    assert!(a.is_not_after(&a));
    assert!(Timestamp::new(-5, 0).is_not_after(&Timestamp::new(-4, 0)));
    assert!(Timestamp::new(2, 1).is_not_after(&Timestamp::new(2, 2)));
    assert!(!Timestamp::new(2, 3).is_not_after(&Timestamp::new(2, 2)));
}

struct LengthAnalyzer;

impl StringAnalyzer for LengthAnalyzer {
    fn analyze(&self, value: &str) -> StringAnalysisResult {
        StringAnalysisResult {
            entropy: if value.len() > 5_000_000 { 0 } else { 2_000_000 },
            is_suspicious: false,
            suspicious_indicators: Vec::new(),
            categories: Vec::new(),
        }
    }
}

struct LengthCategorizer;

impl Categorizer for LengthCategorizer {
    fn categorize(&self, value: &str) -> Vec<Category> {
        vec![Category { name: format!("length {}", value.len()), severity: None }]
    }
}

#[test]
fn related_strings_keep_a_score_just_above_the_threshold() {
    let mut tracker = StringTracker::with_components(LengthAnalyzer, LengthCategorizer);
    let long = "x".repeat(10_000_000);
    let near = "y".repeat(3_000_001);
    let edge = "z".repeat(3_000_000);
    let context = |name: &str| StringContext::Other { category: name.to_string() };
    tracker.track_string_at(&long, "/1", "h", "t", context("one"), at(1)).unwrap();
    tracker.track_string_at(&near, "/2", "h", "t", context("two"), at(2)).unwrap();
    tracker.track_string_at(&edge, "/3", "h", "t", context("three"), at(3)).unwrap();
    let related = tracker.get_related_strings(&long, 10);
    assert_eq!(related.len(), 1);
    assert_eq!(related[0].0.len(), 3_000_001);
    assert_eq!(related[0].1, 300_001);
}

#[test]
fn recorded_entropy_of_a_uniform_string_is_below_that_of_a_varied_one() {
    let mut tracker = StringTracker::new();
    let uniform = "a".repeat(2_000_000);
    let mut varied = "a".repeat(2_000_000);
    varied.push('b');
    tracker.track_string_at(&uniform, "/1", "h", "t", file_string(), at(1)).unwrap();
    tracker.track_string_at(&varied, "/1", "h", "t", file_string(), at(2)).unwrap();
    let low = tracker.get_string_details(&uniform).unwrap().entropy;
    let high = tracker.get_string_details(&varied).unwrap().entropy;
    assert_eq!(low, 0);
    assert!(high > 0);
    assert!(low < high);
}
