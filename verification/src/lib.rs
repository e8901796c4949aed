//! String analysis and tracking for forensic tooling.
//!
//! Strings taken from scanned artefacts are analysed (entropy, pattern
//! matches, non-printable characters), classified by shape, and gathered
//! into entries that can be queried: statistics under a filter, search by
//! substring, and search for related strings.
//!
//! Entropy is counted in millionths of a bit per character and similarity
//! in millionths, so that every computation is on integers.

pub mod analyzer;
pub mod categorizer;
pub mod clock;
pub mod entropy;
pub mod filter;
pub mod labels;
pub mod ledger;
pub mod matcher;
pub mod model;
pub mod patterns;
pub mod queries;
pub mod ranking;
pub mod similarity;
pub mod statistics;
pub mod store;
pub mod text;
pub mod tracker;
pub mod unicode;
pub mod wide;

pub use analyzer::{
    AnalysisConfig, DefaultStringAnalyzer, StringAnalysisResult, StringAnalyzer,
    SuspiciousIndicator,
};
pub use categorizer::{Categorizer, Category, DefaultCategorizer};
pub use clock::Timestamp;
pub use filter::matches_filter;
pub use model::{StringContext, StringEntry, StringFilter, StringOccurrence, StringStatistics};
pub use patterns::{DefaultPatternProvider, Pattern, PatternDef, PatternError, PatternProvider};
pub use similarity::similarity;
pub use tracker::{StringTracker, TrackError};
