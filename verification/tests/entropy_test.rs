use threatflux_string_analysis::entropy::{log2_fixed, shannon_entropy};
use threatflux_string_analysis::DefaultStringAnalyzer;

fn float_entropy(s: &str) -> f64 {
    let chars: Vec<char> = s.chars().collect();
    let n = chars.len() as f64;
    let mut sum = 0.0;
    let mut seen: Vec<char> = Vec::new();
    for c in &chars {
        if seen.contains(c) {
            continue;
        }
        seen.push(*c);
        let count = chars.iter().filter(|d| *d == c).count() as f64;
        let p = count / n;
        sum -= p * p.log2();
    }
    sum
}

#[test]
fn entropy_of_the_empty_string_is_zero() {
    assert_eq!(shannon_entropy(""), 0);
    assert_eq!(DefaultStringAnalyzer::new().calculate_entropy(""), 0);
}

#[test]
fn entropy_of_a_repeated_character_is_zero() {
    assert_eq!(shannon_entropy("a"), 0);
    assert_eq!(shannon_entropy("aaaaaaa"), 0);
    assert_eq!(shannon_entropy("\u{e9}\u{e9}\u{e9}"), 0);
}

#[test]
fn entropy_of_equally_frequent_characters_is_exact() {
    assert_eq!(shannon_entropy("ab"), 1_000_000);
    assert_eq!(shannon_entropy("aabb"), 1_000_000);
    assert_eq!(shannon_entropy("abcd"), 2_000_000);
    assert_eq!(shannon_entropy("beta"), 2_000_000);
    assert_eq!(shannon_entropy("abcdefgh"), 3_000_000);
    assert_eq!(shannon_entropy("alphabet"), 2_750_000);
}

#[test]
fn entropy_of_mixed_strings_has_the_expected_value() {
    assert_eq!(shannon_entropy("aab"), 918_295);
    assert_eq!(shannon_entropy("hello world"), 2_845_350);
    assert_eq!(shannon_entropy("alpha"), 1_921_928);
    assert_eq!(shannon_entropy("random$#@!string123"), 4_037_400);
    assert_eq!(shannon_entropy("a1b2c3d4e5f6g7h8i9j0k!l@m#n$"), 4_807_353);
}

#[test]
fn entropy_agrees_with_the_floating_point_formula() {
    let samples = [
        "aab",
        "hello world",
        "cmd.exe /c whoami",
        "https://example.com",
        "The quick brown fox jumps over the lazy dog",
        "0123456789abcdefghijklmnopqrstuvwxyzABCDEFGHIJKLMNOPQRSTUVWXYZ",
        "na\u{ef}ve caf\u{e9} \u{4e2d}\u{6587}",
    ];
    for s in samples {
        let fixed = shannon_entropy(s) as f64;
        let float = float_entropy(s) * 1_000_000.0;
        assert!((fixed - float).abs() <= 5.0, "{}: {} against {}", s, fixed, float);
    }
}

#[test]
fn entropy_counts_characters_not_bytes() {
    // Two distinct characters, each once, whatever their encoded length.
    assert_eq!(shannon_entropy("\u{e9}\u{4e2d}"), 1_000_000);
}

#[test]
fn uniform_string_has_lower_entropy_than_varied_string() {
    assert!(shannon_entropy("aaaaaaa") < shannon_entropy("random$#@!string123"));
}

#[test]
fn logarithm_of_powers_of_two_is_exact() {
    assert_eq!(log2_fixed(0), 0);
    assert_eq!(log2_fixed(1), 0);
    assert_eq!(log2_fixed(2), 1_000_000);
    assert_eq!(log2_fixed(8), 3_000_000);
    assert_eq!(log2_fixed(1 << 40), 40_000_000);
    assert_eq!(log2_fixed(1 << 63), 63_000_000);
}

#[test]
fn logarithm_has_the_expected_value() {
    assert_eq!(log2_fixed(3), 1_584_961);
    assert_eq!(log2_fixed(5), 2_321_928);
    assert_eq!(log2_fixed(10), 3_321_928);
    assert_eq!(log2_fixed(1000), 9_965_784);
    assert_eq!(log2_fixed(u64::MAX), 63_999_999);
}

#[test]
fn logarithm_agrees_with_the_floating_point_logarithm() {
    let mut x: u64 = 1;
    while x < u64::MAX / 3 {
        let fixed = log2_fixed(x) as f64;
        let float = (x as f64).log2() * 1_000_000.0;
        assert!((fixed - float).abs() <= 3.0, "{}: {} against {}", x, fixed, float);
        x = x * 3 + 1;
    }
}

#[test]
fn logarithm_never_decreases() {
    let mut last = 0;
    for x in 1..5000u64 {
        let l = log2_fixed(x);
        assert!(l >= last);
        last = l;
    }
}

#[test]
fn entropy_of_a_long_string_with_one_odd_character_is_above_zero() {
    let mut s = "a".repeat(20_000_000);
    assert_eq!(shannon_entropy(&s), 0);
    s.push('b');
    // About 24 bits shared among twenty million characters: a little above 1 micro-bit.
    assert_eq!(shannon_entropy(&s), 2);
}

#[test]
fn entropy_is_rounded_up() {
    // log2(3) - 2/3 is 0.9182958...; the logarithm in use gives 918_294.33.
    assert_eq!(shannon_entropy("aab"), 918_295);
    assert_eq!(shannon_entropy("ab"), 1_000_000);
}
