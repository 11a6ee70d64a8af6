//! Ranks candidate strings against a typed query: a lexical scorer built on
//! edit distance and subsequence matching, a semantic scorer over precomputed
//! similarities, and a ranker that orders the suggestions by score.

pub mod distance;
pub mod lexical;
pub mod rank;
pub mod record;
pub mod semantic;
pub mod session;
pub mod suggestion;
pub mod text;
