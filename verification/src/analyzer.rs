//! Analysis of a single string: entropy, pattern matches and non-printable
//! characters, combined into a verdict.

use vstd::prelude::*;
use crate::entropy::{entropy_of, entropy_of_chars, lemma_entropy_bounds, MICRO};
use crate::labels::{push_unique, texts, with_text};
use crate::patterns::{
    clone_patterns, pattern_matches, pattern_models, Pattern, PatternError, PatternModel,
};
use crate::matcher::regex_valid;
use crate::text::chars_of;

verus! {

/// Entropy above which a string is suspicious unless configured otherwise:
/// 4.5 bits per character.
pub const DEFAULT_ENTROPY_THRESHOLD: u64 = 4_500_000;

/// Number of occurrences kept per string unless configured otherwise.
pub const DEFAULT_MAX_OCCURRENCES: usize = 1000;

/// Severity of the indicator for entropy above the threshold.
pub const HIGH_ENTROPY_SEVERITY: u8 = 3;

/// Severity of the indicator for non-printable characters.
pub const NON_PRINTABLE_SEVERITY: u8 = 2;

/// Tunables of the analysis.
#[derive(Debug)]
pub struct AnalysisConfig {
    /// Entropy, in micro-bits per character, above which a string is suspicious.
    pub min_suspicious_entropy: u64,
    /// Number of occurrences kept per tracked string.
    pub max_occurrences_per_string: usize,
    /// Whether time-based analysis is enabled.
    pub enable_time_analysis: bool,
    /// Names of custom metadata fields.
    pub custom_metadata_fields: Vec<String>,
}

impl Default for AnalysisConfig {
    fn default() -> (r: Self)
        ensures
            r.min_suspicious_entropy == DEFAULT_ENTROPY_THRESHOLD,
            r.max_occurrences_per_string == DEFAULT_MAX_OCCURRENCES,
            r.enable_time_analysis,
            r.custom_metadata_fields@.len() == 0,
    {
        AnalysisConfig {
            min_suspicious_entropy: DEFAULT_ENTROPY_THRESHOLD,
            max_occurrences_per_string: DEFAULT_MAX_OCCURRENCES,
            enable_time_analysis: true,
            custom_metadata_fields: Vec::new(),
        }
    }
}

/// Model of a suspicious indicator.
pub struct IndicatorModel {
    pub pattern_name: Seq<char>,
    pub category: Seq<char>,
    pub severity: u8,
}

/// One reason to find a string suspicious: the pattern that matched, or one
/// of the built-in signals `high_entropy` and `non_printable_chars`.
#[derive(Debug)]
pub struct SuspiciousIndicator {
    pub pattern_name: String,
    pub category: String,
    pub severity: u8,
}

impl View for SuspiciousIndicator {
    type V = IndicatorModel;

    open spec fn view(&self) -> IndicatorModel {
        IndicatorModel {
            pattern_name: self.pattern_name@,
            category: self.category@,
            severity: self.severity,
        }
    }
}

/// Model of the result of analysing one string.
pub struct AnalysisModel {
    pub entropy: int,
    pub is_suspicious: bool,
    pub suspicious_indicators: Seq<IndicatorModel>,
    pub categories: Seq<Seq<char>>,
}

/// Result of analysing one string.
#[derive(Debug)]
pub struct StringAnalysisResult {
    /// Shannon entropy in micro-bits per character.
    pub entropy: u64,
    pub is_suspicious: bool,
    pub suspicious_indicators: Vec<SuspiciousIndicator>,
    /// Categories of the patterns that matched, each once.
    pub categories: Vec<String>,
}

/// The models of a sequence of indicators.
pub open spec fn indicator_models(s: Seq<SuspiciousIndicator>) -> Seq<IndicatorModel> {
    Seq::new(s.len(), |i: int| s[i]@)
}

impl View for StringAnalysisResult {
    type V = AnalysisModel;

    open spec fn view(&self) -> AnalysisModel {
        AnalysisModel {
            entropy: self.entropy as int,
            is_suspicious: self.is_suspicious,
            suspicious_indicators: indicator_models(self.suspicious_indicators@),
            categories: texts(self.categories@),
        }
    }
}

/// A control character other than tab, line feed and carriage return.
pub open spec fn is_non_printable(c: char) -> bool {
    let code = c as u32;
    (code < 0x20 && c != '\t' && c != '\n' && c != '\r') || (0x7f <= code && code <= 0x9f)
}

/// `s` holds a non-printable character.
pub open spec fn has_non_printable(s: Seq<char>) -> bool {
    exists|i: int| 0 <= i < s.len() && is_non_printable(s[i])
}

/// The indicator that a suspicious pattern gives when it matches.
pub open spec fn indicator_of(p: PatternModel) -> IndicatorModel {
    IndicatorModel { pattern_name: p.name, category: p.category, severity: p.severity }
}

/// The indicator for entropy above the threshold.
pub open spec fn high_entropy_indicator() -> IndicatorModel {
    IndicatorModel {
        pattern_name: "high_entropy"@,
        category: "entropy"@,
        severity: HIGH_ENTROPY_SEVERITY,
    }
}

/// The indicator for non-printable characters.
pub open spec fn non_printable_indicator() -> IndicatorModel {
    IndicatorModel {
        pattern_name: "non_printable_chars"@,
        category: "encoding"@,
        severity: NON_PRINTABLE_SEVERITY,
    }
}

/// Whether the pattern at position `i` is flagged in `matched`; a position
/// that `matched` does not cover is not.
pub open spec fn flagged(matched: Seq<bool>, i: int) -> bool {
    0 <= i < matched.len() && matched[i]
}

/// Indicators of the suspicious patterns among the first `n` that are
/// flagged in `matched`, in catalog order.
pub open spec fn indicators_given(patterns: Seq<PatternModel>, matched: Seq<bool>, n: nat) -> Seq<
    IndicatorModel,
>
    decreases n,
{
    if n == 0 {
        Seq::empty()
    } else {
        let rest = indicators_given(patterns, matched, (n - 1) as nat);
        if flagged(matched, n - 1) && patterns[n - 1].is_suspicious {
            rest.push(indicator_of(patterns[n - 1]))
        } else {
            rest
        }
    }
}

/// Categories of the patterns among the first `n` that are flagged in
/// `matched`, suspicious or not, each once and in the order of the first
/// pattern that gives it.
pub open spec fn categories_given(patterns: Seq<PatternModel>, matched: Seq<bool>, n: nat) -> Seq<
    Seq<char>,
>
    decreases n,
{
    if n == 0 {
        Seq::empty()
    } else {
        let rest = categories_given(patterns, matched, (n - 1) as nat);
        if flagged(matched, n - 1) {
            with_text(rest, patterns[n - 1].category)
        } else {
            rest
        }
    }
}

/// Some suspicious pattern is flagged in `matched`.
pub open spec fn suspicious_match(patterns: Seq<PatternModel>, matched: Seq<bool>) -> bool {
    exists|i: int| 0 <= i < patterns.len() && patterns[i].is_suspicious && flagged(matched, i)
}

/// The verdict on a string of which it is known which patterns match it,
/// what its entropy is and whether it holds non-printable characters.
///
/// The indicators are those of the suspicious patterns that match, then
/// the one for non-printable characters, then the one for entropy above
/// the threshold.  The string is suspicious if a suspicious pattern
/// matches, if it holds a non-printable character, or if its entropy is
/// above the threshold.
pub open spec fn assessment(
    patterns: Seq<PatternModel>,
    matched: Seq<bool>,
    entropy: int,
    non_printable: bool,
    threshold: int,
) -> AnalysisModel {
    let from_patterns = indicators_given(patterns, matched, patterns.len());
    let with_control = if non_printable {
        from_patterns.push(non_printable_indicator())
    } else {
        from_patterns
    };
    let indicators = if entropy > threshold {
        with_control.push(high_entropy_indicator())
    } else {
        with_control
    };
    AnalysisModel {
        entropy,
        is_suspicious: suspicious_match(patterns, matched) || non_printable || entropy > threshold,
        suspicious_indicators: indicators,
        categories: categories_given(patterns, matched, patterns.len()),
    }
}

/// For each pattern, whether it matches `value`.
pub open spec fn matches_of(patterns: Seq<PatternModel>, value: Seq<char>) -> Seq<bool> {
    Seq::new(patterns.len(), |i: int| pattern_matches(patterns[i], value))
}

/// The analysis of `value` under the given patterns and entropy threshold.
pub open spec fn analysis_of(patterns: Seq<PatternModel>, threshold: int, value: Seq<char>) -> AnalysisModel {
    assessment(
        patterns,
        matches_of(patterns, value),
        entropy_of(value),
        has_non_printable(value),
        threshold,
    )
}

/// Patterns give an indicator exactly when a suspicious one is flagged.
pub proof fn lemma_indicators_nonempty(patterns: Seq<PatternModel>, matched: Seq<bool>, n: nat)
    requires
        n <= patterns.len(),
    ensures
        indicators_given(patterns, matched, n).len() > 0 <==> exists|i: int|
            0 <= i < n && patterns[i].is_suspicious && flagged(matched, i),
    decreases n,
{
    if n > 0 {
        lemma_indicators_nonempty(patterns, matched, (n - 1) as nat);
    }
}

/// A string is suspicious exactly when its assessment lists an indicator.
pub proof fn lemma_suspicious_iff_indicated(
    patterns: Seq<PatternModel>,
    matched: Seq<bool>,
    entropy: int,
    non_printable: bool,
    threshold: int,
)
    ensures
        assessment(patterns, matched, entropy, non_printable, threshold).is_suspicious
            <==> assessment(
            patterns,
            matched,
            entropy,
            non_printable,
            threshold,
        ).suspicious_indicators.len() > 0,
{
    lemma_indicators_nonempty(patterns, matched, patterns.len());
}

/// The categories of an assessment hold no text twice.
pub proof fn lemma_categories_unique(patterns: Seq<PatternModel>, matched: Seq<bool>, n: nat)
    ensures
        categories_given(patterns, matched, n).no_duplicates(),
    decreases n,
{
    if n > 0 {
        lemma_categories_unique(patterns, matched, (n - 1) as nat);
        crate::labels::lemma_with_text_unique(
            categories_given(patterns, matched, (n - 1) as nat),
            patterns[n - 1].category,
        );
    }
}

/// The entropy of an analysis is never negative, and that of the empty
/// string is 0.
pub proof fn lemma_analysis_entropy(patterns: Seq<PatternModel>, threshold: int, value: Seq<char>)
    ensures
        analysis_of(patterns, threshold, value).entropy >= 0,
        value.len() == 0 ==> analysis_of(patterns, threshold, value).entropy == 0,
{
    lemma_entropy_bounds(value);
}

/// Something that can analyse a string.  Nothing is asked of an analyzer:
/// what it returns is taken as it comes.
pub trait StringAnalyzer {
    /// Analyses `value`.
    fn analyze(&self, value: &str) -> (r: StringAnalysisResult);
}

/// The analyzer that ships with the library: a list of patterns and an
/// entropy threshold.
pub struct DefaultStringAnalyzer {
    patterns: Vec<Pattern>,
    entropy_threshold: u64,
}

/// Whether `s` holds a non-printable character.
pub fn contains_non_printable(s: &Vec<char>) -> (r: bool)
    ensures
        r == has_non_printable(s@),
{
    let mut i: usize = 0;
    while i < s.len()
        invariant
            i <= s.len(),
            forall|j: int| 0 <= j < i ==> !is_non_printable(s@[j]),
        decreases s.len() - i,
    {
        let c = s[i];
        let code = c as u32;
        if (code < 0x20 && c != '\t' && c != '\n' && c != '\r') || (0x7f <= code && code <= 0x9f) {
            return true;
        }
        i += 1;
    }
    false
}

impl DefaultStringAnalyzer {
    /// The patterns of this analyzer, in order.
    pub closed spec fn patterns(&self) -> Seq<PatternModel> {
        pattern_models(self.patterns@)
    }

    /// The entropy threshold of this analyzer, in micro-bits per character.
    pub closed spec fn threshold(&self) -> int {
        self.entropy_threshold as int
    }

    /// An analyzer without patterns and with the default entropy threshold.
    pub fn new() -> (r: Self)
        ensures
            r.patterns() == Seq::<PatternModel>::empty(),
            r.threshold() == DEFAULT_ENTROPY_THRESHOLD,
    {
        let r = DefaultStringAnalyzer {
            patterns: Vec::new(),
            entropy_threshold: DEFAULT_ENTROPY_THRESHOLD,
        };
        assert(r.patterns() =~= Seq::<PatternModel>::empty());
        r
    }

    /// An analyzer without patterns and with the entropy threshold of `config`.
    pub fn from_config(config: &AnalysisConfig) -> (r: Self)
        ensures
            r.patterns() == Seq::<PatternModel>::empty(),
            r.threshold() == config.min_suspicious_entropy,
    {
        let r = DefaultStringAnalyzer {
            patterns: Vec::new(),
            entropy_threshold: config.min_suspicious_entropy,
        };
        assert(r.patterns() =~= Seq::<PatternModel>::empty());
        r
    }

    /// This analyzer with `patterns` in place of its own.
    pub fn with_patterns(self, patterns: Vec<Pattern>) -> (r: Self)
        ensures
            r.patterns() == pattern_models(patterns@),
            r.threshold() == self.threshold(),
    {
        DefaultStringAnalyzer { patterns, entropy_threshold: self.entropy_threshold }
    }

    /// This analyzer with `threshold`, in micro-bits per character, as its
    /// entropy threshold.
    pub fn with_entropy_threshold(self, threshold: u64) -> (r: Self)
        ensures
            r.patterns() == self.patterns(),
            r.threshold() == threshold,
    {
        DefaultStringAnalyzer { patterns: self.patterns, entropy_threshold: threshold }
    }

    /// Adds `pattern` after the patterns already held.  Fails with
    /// `InvalidPattern`, leaving the analyzer as it was, when the regular
    /// expression of `pattern` does not compile.
    pub fn add_pattern(&mut self, pattern: Pattern) -> (r: Result<(), PatternError>)
        ensures
            final(self).threshold() == old(self).threshold(),
            regex_valid(pattern.regex@) ==> r is Ok && final(self).patterns() == old(
                self,
            ).patterns().push(pattern@),
            !regex_valid(pattern.regex@) ==> r is Err && r->Err_0 is InvalidPattern
                && r->Err_0->InvalidPattern_0@ == pattern.name@ && final(self).patterns() == old(
                self,
            ).patterns(),
    {
        if pattern.is_valid() {
            self.patterns.push(pattern);
            assert(self.patterns() =~= old(self).patterns().push(pattern@));
            Ok(())
        } else {
            Err(PatternError::InvalidPattern(pattern.name))
        }
    }

    /// A snapshot of the patterns of this analyzer.
    pub fn get_patterns(&self) -> (r: Vec<Pattern>)
        ensures
            pattern_models(r@) == self.patterns(),
    {
        clone_patterns(&self.patterns)
    }

    /// The entropy threshold, in micro-bits per character.
    pub fn entropy_threshold(&self) -> (t: u64)
        ensures
            t == self.threshold(),
    {
        self.entropy_threshold
    }

    /// Shannon entropy of `value` in micro-bits per character: never
    /// negative, and 0 for the empty string.
    pub fn calculate_entropy(&self, value: &str) -> (r: u64)
        ensures
            r == entropy_of(value@),
            r <= 64 * MICRO,
            value@.len() == 0 ==> r == 0,
    {
        proof {
            lemma_entropy_bounds(value@);
        }
        let chars = chars_of(value);
        entropy_of_chars(&chars)
    }

    /// Whether the analysis of `value` finds it suspicious.
    pub fn is_suspicious(&self, value: &str) -> (r: bool)
        ensures
            r == analysis_of(self.patterns(), self.threshold(), value@).is_suspicious,
    {
        self.analyze(value).is_suspicious
    }
}

/// The verdict on a string given which patterns match it, its entropy and
/// whether it holds non-printable characters.
pub fn assess(
    patterns: &Vec<Pattern>,
    matched: &Vec<bool>,
    entropy: u64,
    non_printable: bool,
    threshold: u64,
) -> (r: StringAnalysisResult)
    ensures
        r@ == assessment(
            pattern_models(patterns@),
            matched@,
            entropy as int,
            non_printable,
            threshold as int,
        ),
{
    let mut indicators: Vec<SuspiciousIndicator> = Vec::new();
    let mut categories: Vec<String> = Vec::new();
    let ghost all = pattern_models(patterns@);
    let mut i: usize = 0;
    assert(indicator_models(indicators@) =~= Seq::<IndicatorModel>::empty());
    assert(texts(categories@) =~= Seq::<Seq<char>>::empty());
    while i < patterns.len()
        invariant
            i <= patterns.len(),
            all == pattern_models(patterns@),
            indicator_models(indicators@) == indicators_given(all, matched@, i as nat),
            texts(categories@) == categories_given(all, matched@, i as nat),
        decreases patterns.len() - i,
    {
        proof {
            assert(all[i as int] == patterns[i as int]@);
        }
        let pattern = &patterns[i];
        if i < matched.len() && matched[i] {
            if pattern.is_suspicious {
                let ghost before = indicator_models(indicators@);
                indicators.push(
                    SuspiciousIndicator {
                        pattern_name: pattern.name.clone(),
                        category: pattern.category.clone(),
                        severity: pattern.severity,
                    },
                );
                assert(indicator_models(indicators@) =~= before.push(indicator_of(pattern@)));
            }
            push_unique(&mut categories, &pattern.category);
        }
        i += 1;
    }
    if non_printable {
        let ghost before = indicator_models(indicators@);
        indicators.push(
            SuspiciousIndicator {
                pattern_name: "non_printable_chars".to_owned(),
                category: "encoding".to_owned(),
                severity: NON_PRINTABLE_SEVERITY,
            },
        );
        assert(indicator_models(indicators@) =~= before.push(non_printable_indicator()));
    }
    if entropy > threshold {
        let ghost before = indicator_models(indicators@);
        indicators.push(
            SuspiciousIndicator {
                pattern_name: "high_entropy".to_owned(),
                category: "entropy".to_owned(),
                severity: HIGH_ENTROPY_SEVERITY,
            },
        );
        assert(indicator_models(indicators@) =~= before.push(high_entropy_indicator()));
    }
    proof {
        lemma_suspicious_iff_indicated(
            all,
            matched@,
            entropy as int,
            non_printable,
            threshold as int,
        );
    }
    let is_suspicious = indicators.len() > 0;
    StringAnalysisResult { entropy, is_suspicious, suspicious_indicators: indicators, categories }
}

impl StringAnalyzer for DefaultStringAnalyzer {
    /// Computes the entropy of `value`, matches every pattern against it,
    /// looks for non-printable characters, and assesses what was found.
    /// The entropy is never negative, and 0 for the empty string.
    fn analyze(&self, value: &str) -> (r: StringAnalysisResult)
        ensures
            r@ == analysis_of(self.patterns(), self.threshold(), value@),
            value@.len() == 0 ==> r.entropy == 0,
    {
        proof {
            lemma_entropy_bounds(value@);
        }
        let chars = chars_of(value);
        let entropy = entropy_of_chars(&chars);
        let mut matched: Vec<bool> = Vec::new();
        let mut i: usize = 0;
        while i < self.patterns.len()
            invariant
                i <= self.patterns.len(),
                matched.len() == i,
                forall|k: int| 0 <= k < i ==> matched[k] == pattern_matches(self.patterns[k]@, value@),
            decreases self.patterns.len() - i,
        {
            matched.push(self.patterns[i].is_match(value));
            i += 1;
        }
        assert(matched@ =~= matches_of(pattern_models(self.patterns@), value@));
        assess(&self.patterns, &matched, entropy, contains_non_printable(&chars), self.entropy_threshold)
    }
}

} // verus!
