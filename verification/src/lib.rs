//! Word-frequency analysis: split text into whitespace-delimited tokens,
//! normalize each token (strip non-alphanumeric edges, lower-case), count
//! occurrences of each normalized word, rank the most frequent, and format
//! the full table as CSV.

pub mod unicode;
pub mod stopwords;
pub mod table;
pub mod tokens;
pub mod rank;
pub mod export;
pub mod opts;
