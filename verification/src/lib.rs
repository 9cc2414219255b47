//! An in-memory inverted index for full-text search over short text documents.
//!
//! Documents (an integer id plus a content string) are indexed through a
//! character-level ngram analyzer; queries are composable trees of match,
//! phrase, prefix, intersection and union nodes.  Every returned result
//! carries the byte offsets within the document that caused the match, so
//! callers can render highlights.

pub mod chars;
pub mod coalesce;
pub mod postings;
pub mod document;
pub mod analysis;
pub mod index;
pub mod query;
pub mod search_result;
pub mod laws;
pub mod stream_laws;
pub mod sort_laws;
pub mod char_utf8;
pub mod tokenizers;

pub use analysis::Analyzer;
pub use document::Document;
pub use index::{InvertedIndex, InvertedIndexBuilder};
pub use postings::{Position, PostingsMap};
pub use query::Query;
pub use search_result::SearchResult;
