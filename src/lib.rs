//! Tokenizes a text into lowercase alphanumeric words and answers queries
//! over the resulting word sequence: counts, distinct words, the longest
//! word, frequencies, filtering, and cursors over words and word pairs.
pub mod analyzer;
pub mod cursor;
pub mod frequency;
pub mod tokens;

pub use analyzer::TextAnalyzer;
pub use cursor::{WordIterator, WordPairIterator};
