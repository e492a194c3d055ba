//! Memory-bounded n-gram counting over large text corpora: a counting
//! table addressed by several seeded hashes, a bounded selection of the
//! most frequent n-grams, and the decisions of the job executor that feeds
//! them.

pub mod text;
pub mod tokens;
pub mod s3;
pub mod io;
pub mod cmd;
pub mod ngrams;
