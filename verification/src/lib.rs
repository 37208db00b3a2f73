//! A minimal in-memory full-text retrieval engine.
//!
//! A corpus of short text records is ingested into a [`store::DocStore`],
//! segmented into terms, and accumulated into an inverted index mapping each
//! term to the documents containing it; a query is answered by unioning the
//! postings of its terms (OR-retrieval, deduplicated, first-seen order).

pub mod engine;
pub mod error;
pub mod model;
pub mod stopwords;
pub mod store;
pub mod tokenize;
