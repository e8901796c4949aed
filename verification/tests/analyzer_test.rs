use threatflux_string_analysis::{
    AnalysisConfig, DefaultPatternProvider, PatternProvider, DefaultStringAnalyzer, Pattern, PatternError,
    StringAnalyzer,
};

fn pattern(name: &str, regex: &str, category: &str, suspicious: bool, severity: u8) -> Pattern {
    Pattern {
        name: name.to_string(),
        regex: regex.to_string(),
        category: category.to_string(),
        description: String::new(),
        is_suspicious: suspicious,
        severity,
    }
}

#[test]
fn analysis_reports_the_entropy() {
    let analyzer = DefaultStringAnalyzer::new();
    assert_eq!(analyzer.analyze("abcd").entropy, 2_000_000);
    assert_eq!(analyzer.analyze("").entropy, 0);
    assert_eq!(analyzer.analyze("hello world").entropy, 2_845_350);
}

#[test]
fn suspicious_pattern_gives_indicator_and_category() {
    let analyzer = DefaultStringAnalyzer::new()
        .with_patterns(vec![pattern("shell", "cmd", "command", true, 4)]);
    let r = analyzer.analyze("run cmd now");
    assert!(r.is_suspicious);
    assert_eq!(r.suspicious_indicators.len(), 1);
    assert_eq!(r.suspicious_indicators[0].pattern_name, "shell");
    assert_eq!(r.suspicious_indicators[0].category, "command");
    assert_eq!(r.suspicious_indicators[0].severity, 4);
    assert_eq!(r.categories, vec!["command".to_string()]);
}

#[test]
fn harmless_pattern_gives_category_but_no_indicator() {
    let analyzer = DefaultStringAnalyzer::new()
        .with_patterns(vec![pattern("web", "http", "network", false, 1)]);
    let r = analyzer.analyze("http");
    assert!(!r.is_suspicious);
    assert!(r.suspicious_indicators.is_empty());
    assert_eq!(r.categories, vec!["network".to_string()]);
}

#[test]
fn categories_are_listed_once_in_catalog_order() {
    let analyzer = DefaultStringAnalyzer::new().with_patterns(vec![
        pattern("a", "x", "second", true, 1),
        pattern("b", "y", "first", true, 2),
        pattern("c", "z", "second", true, 3),
        pattern("d", "q", "never", true, 4),
    ]);
    let r = analyzer.analyze("zyx");
    assert_eq!(r.categories, vec!["second".to_string(), "first".to_string()]);
    let names: Vec<&str> =
        r.suspicious_indicators.iter().map(|i| i.pattern_name.as_str()).collect();
    assert_eq!(names, vec!["a", "b", "c"]);
}

#[test]
fn non_printable_characters_are_reported_after_the_patterns() {
    let analyzer =
        DefaultStringAnalyzer::new().with_patterns(vec![pattern("t", "test", "c", true, 1)]);
    let r = analyzer.analyze("test\x07string");
    assert!(r.is_suspicious);
    let names: Vec<&str> =
        r.suspicious_indicators.iter().map(|i| i.pattern_name.as_str()).collect();
    assert_eq!(names, vec!["t", "non_printable_chars"]);
    assert_eq!(r.suspicious_indicators[1].category, "encoding");
    assert_eq!(r.suspicious_indicators[1].severity, 2);
    assert_eq!(r.categories, vec!["c".to_string()]);
}

#[test]
fn tab_and_line_breaks_are_printable() {
    let analyzer = DefaultStringAnalyzer::new();
    assert!(!analyzer.is_suspicious("a\tb\nc\rd"));
    assert!(analyzer.is_suspicious("a\u{0}b"));
    assert!(analyzer.is_suspicious("a\u{1f}b"));
    assert!(analyzer.is_suspicious("a\u{7f}b"));
    assert!(analyzer.is_suspicious("a\u{85}b"));
    assert!(!analyzer.is_suspicious("a\u{a0}b"));
    assert!(!analyzer.is_suspicious("a b"));
}

#[test]
fn entropy_above_the_threshold_is_reported_last() {
    let analyzer = DefaultStringAnalyzer::new();
    let r = analyzer.analyze("a1b2c3d4e5f6g7h8i9j0k!l@m#n$\x01");
    let names: Vec<&str> =
        r.suspicious_indicators.iter().map(|i| i.pattern_name.as_str()).collect();
    assert_eq!(names, vec!["non_printable_chars", "high_entropy"]);
    assert_eq!(r.suspicious_indicators[1].category, "entropy");
    assert_eq!(r.suspicious_indicators[1].severity, 3);
    assert!(r.categories.is_empty());
}

#[test]
fn entropy_equal_to_the_threshold_is_not_suspicious() {
    let at = DefaultStringAnalyzer::new().with_entropy_threshold(2_000_000);
    assert!(!at.is_suspicious("abcd"));
    let below = DefaultStringAnalyzer::new().with_entropy_threshold(1_999_999);
    assert!(below.is_suspicious("abcd"));
    assert_eq!(below.entropy_threshold(), 1_999_999);
}

#[test]
fn default_threshold_is_four_and_a_half_bits() {
    assert_eq!(DefaultStringAnalyzer::new().entropy_threshold(), 4_500_000);
    let config = AnalysisConfig { min_suspicious_entropy: 1_000_000, ..AnalysisConfig::default() };
    assert_eq!(DefaultStringAnalyzer::from_config(&config).entropy_threshold(), 1_000_000);
}

#[test]
fn adding_an_invalid_pattern_fails_and_changes_nothing() {
    let mut analyzer = DefaultStringAnalyzer::new();
    analyzer.add_pattern(pattern("ok", "a", "c", true, 1)).unwrap();
    match analyzer.add_pattern(pattern("bad", "[", "c", true, 1)) {
        Err(PatternError::InvalidPattern(name)) => assert_eq!(name, "bad"),
        other => panic!("unexpected result: {:?}", other),
    }
    let patterns = analyzer.get_patterns();
    assert_eq!(patterns.len(), 1);
    assert_eq!(patterns[0].name, "ok");
}

#[test]
fn an_invalid_pattern_put_in_by_replacement_never_matches() {
    let analyzer =
        DefaultStringAnalyzer::new().with_patterns(vec![pattern("bad", "[", "c", true, 1)]);
    let r = analyzer.analyze("[");
    assert!(!r.is_suspicious);
    assert!(r.categories.is_empty());
}

#[test]
fn with_patterns_replaces_and_keeps_the_threshold() {
    let analyzer = DefaultStringAnalyzer::new()
        .with_entropy_threshold(1)
        .with_patterns(vec![pattern("a", "a", "c", true, 1)])
        .with_patterns(vec![pattern("b", "b", "c", true, 1)]);
    assert_eq!(analyzer.entropy_threshold(), 1);
    let patterns = analyzer.get_patterns();
    assert_eq!(patterns.len(), 1);
    assert_eq!(patterns[0].name, "b");
}

#[test]
fn default_catalog_finds_the_shell_command() {
    let analyzer = DefaultStringAnalyzer::new()
        .with_patterns(DefaultPatternProvider::default().get_patterns());
    let r = analyzer.analyze("cmd.exe /c whoami");
    assert!(r.is_suspicious);
    assert_eq!(r.suspicious_indicators[0].pattern_name, "windows_shell");
    assert_eq!(r.categories, vec!["command".to_string()]);
    assert!(analyzer.is_suspicious("cmd.exe /c whoami"));
    assert!(!analyzer.is_suspicious("hello world"));
}
