//! An in-memory full-text index over the lines of a text corpus.
//!
//! A [`WordIndex`] holds the lines of a corpus and an inverted index from
//! normalized words to the numbers of the lines that hold them. It answers
//! two questions: which lines hold all the words of a query, and what the
//! text of a line is.

pub mod index;
pub mod listing;
pub mod postings;
pub mod service;
pub mod tokenizer;
pub mod trusted;

pub use index::WordIndex;
