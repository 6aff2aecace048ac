//! An in-memory lyric search engine: a word-position inverted index over a
//! song collection, multi-term queries with exact and single-edit fuzzy
//! matching, and frequency ranking of the matches.
//!
//! Songs come in through [`ingest`], are indexed by [`create_index`],
//! searched by [`search`] and ranked by [`rank`]. Words are compared by
//! their lookup keys, which [`normalize`] makes, and nearly equal words are
//! told by [`levenshtein`].

pub mod chars;
pub mod distance;
pub mod index;
pub mod ingest;
pub mod pattern;
pub mod rank;
pub mod search;
pub mod text;

pub use crate::distance::levenshtein;
pub use crate::index::{create_index, Index, Posting, Song};
pub use crate::ingest::{extract_between, songs_from_files};
pub use crate::rank::{rank, Ranked};
pub use crate::search::{search, search_with_threshold, FUZZY_THRESHOLD};
pub use crate::text::normalize;
