use threatflux_string_analysis::{
    Categorizer, DefaultCategorizer, DefaultPatternProvider, PatternProvider, DefaultStringAnalyzer, PatternDef,
    StringAnalyzer,
};

#[test]
fn test_default_string_analyzer() {
    let analyzer = DefaultStringAnalyzer::new();

    let low_entropy = analyzer.calculate_entropy("aaaaaaa");
    let high_entropy = analyzer.calculate_entropy("random$#@!string123");

    assert!(low_entropy < high_entropy);
    assert!(low_entropy as f64 / 1_000_000.0 >= 0.0);

    let pattern_provider = DefaultPatternProvider::default();
    let analyzer_with_patterns =
        DefaultStringAnalyzer::new().with_patterns(pattern_provider.get_patterns());

    let analysis = analyzer_with_patterns.analyze("cmd.exe /c whoami");
    assert!(analysis.is_suspicious);
    assert!(!analysis.suspicious_indicators.is_empty());
    assert!(analysis.categories.iter().any(|c| c == "command"));

    let benign_analysis = analyzer_with_patterns.analyze("hello world");
    assert!(!benign_analysis.is_suspicious);
}

#[test]
fn test_default_categorizer() {
    let categorizer = DefaultCategorizer::new();

    let url_categories = categorizer.categorize("https://example.com");
    assert!(url_categories.iter().any(|c| c.name == "url"));

    let ip_categories = categorizer.categorize("192.168.1.1");
    assert!(ip_categories.iter().any(|c| c.name == "ip_address"));

    let email_categories = categorizer.categorize("test@example.com");
    assert!(email_categories.iter().any(|c| c.name == "email"));

    let path_categories = categorizer.categorize("/usr/bin/bash");
    assert!(path_categories.iter().any(|c| c.name == "path"));

    let registry_categories = categorizer.categorize("HKEY_LOCAL_MACHINE\\Software");
    assert!(registry_categories.iter().any(|c| c.name == "registry"));

    let lib_categories = categorizer.categorize("kernel32.dll");
    assert!(lib_categories.iter().any(|c| c.name == "library"));

    let generic_categories = categorizer.categorize("just some text");
    assert!(generic_categories.iter().any(|c| c.name == "generic"));
}

#[test]
fn test_default_pattern_provider() {
    let provider = DefaultPatternProvider::default();
    let patterns = provider.get_patterns();

    assert!(!patterns.is_empty());

    let pattern_categories: Vec<_> = patterns.iter().map(|p| &p.category).collect();
    assert!(pattern_categories.contains(&&"network".to_string()));
    assert!(pattern_categories.contains(&&"command".to_string()));
    assert!(pattern_categories.contains(&&"malware".to_string()));
    assert!(pattern_categories.contains(&&"crypto".to_string()));

    let suspicious_patterns: Vec<_> = patterns.iter().filter(|p| p.is_suspicious).collect();
    assert!(!suspicious_patterns.is_empty());
}

#[test]
fn test_pattern_compilation() {
    let pattern_def = PatternDef {
        name: "test_pattern".to_string(),
        regex: r"\d+".to_string(),
        category: "test".to_string(),
        description: "Test pattern for numbers".to_string(),
        is_suspicious: false,
        severity: 3,
    };

    let pattern = pattern_def.compile().unwrap();
    assert_eq!(pattern.name, "test_pattern");
    assert_eq!(pattern.category, "test");
    assert_eq!(pattern.severity, 3);
    assert!(!pattern.is_suspicious);
    assert!(pattern.is_match("123"));
    assert!(!pattern.is_match("abc"));
}

#[test]
fn test_analyzer_with_custom_threshold() {
    let analyzer = DefaultStringAnalyzer::new().with_entropy_threshold(6_000_000);

    let analysis = analyzer.analyze("moderately_random_string");
    let entropy_indicators: Vec<_> = analysis
        .suspicious_indicators
        .iter()
        .filter(|i| i.pattern_name == "high_entropy")
        .collect();

    assert!(entropy_indicators.len() <= 1);
}
