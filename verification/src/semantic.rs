//! The semantic scorer: a suggestion from a similarity that was measured
//! elsewhere, on the scale on which `MAX_SCORE` stands for identical
//! direction.

use vstd::prelude::*;
use crate::lexical::{fuzzy_match_of, lexical_match, match_folded};
use crate::suggestion::{as_positions, Suggestion, SuggestionView, MAX_SCORE};
use crate::text::{fold, Folded};

verus! {

/// A similarity as a score: nothing below zero, nothing above `MAX_SCORE`.
pub open spec fn similarity_score(similarity: int) -> nat {
    if similarity < 0 {
        0
    } else if similarity > MAX_SCORE {
        MAX_SCORE as nat
    } else {
        similarity as nat
    }
}

/// The positions to highlight in a semantic suggestion: those of the
/// lexical match where there is one, none otherwise.
pub open spec fn highlight_of(lexical: Option<SuggestionView>) -> Seq<int> {
    match lexical {
        Some(m) => m.match_indices,
        None => Seq::empty(),
    }
}

/// What `semantic_match` makes of a candidate: its text, the highlight of
/// its lexical match against the query, and its similarity as a score.
pub open spec fn semantic_match_of(
    query: Seq<char>,
    candidate: Seq<char>,
    similarity: int,
) -> SuggestionView {
    SuggestionView {
        text: candidate,
        match_indices: highlight_of(fuzzy_match_of(query, candidate)),
        score: similarity_score(similarity),
    }
}

/// A similarity as a score.
pub fn score_of_similarity(similarity: i64) -> (score: usize)
    ensures
        score == similarity_score(similarity as int),
        score <= MAX_SCORE,
{
    if similarity < 0 {
        0
    } else if similarity > MAX_SCORE as i64 {
        MAX_SCORE
    } else {
        similarity as usize
    }
}

/// The semantic suggestion for the candidate `text`, folded into
/// `candidate`, against the folded characters `query`.
pub fn semantic_folded(query: &[char], candidate: &Folded, text: &str, similarity: i64) -> (s:
    Suggestion)
    requires
        candidate.maps_into(text@.len()),
    ensures
        s@ == (SuggestionView {
            text: text@,
            match_indices: highlight_of(
                lexical_match(
                    query@,
                    candidate.chars@,
                    as_positions(candidate.origins@),
                    text@,
                ),
            ),
            score: similarity_score(similarity as int),
        }),
        s@.well_formed(),
{
    let score = score_of_similarity(similarity);
    match match_folded(query, candidate, text) {
        Some(lexical) => {
            let mut s = lexical;
            s.score = score;
            s
        },
        None => {
            let s = Suggestion { text: text.to_owned(), match_indices: Vec::new(), score };
            assert(as_positions(s.match_indices@) =~= Seq::<int>::empty());
            s
        },
    }
}

/// The suggestion for `candidate` in semantic mode. Every candidate gets
/// one. `similarity` is the cosine similarity of the candidate's and the
/// query's embeddings, times `MAX_SCORE`, as a whole number.
pub fn semantic_match(query: &str, candidate: &str, similarity: i64) -> (s: Suggestion)
    ensures
        s@ == semantic_match_of(query@, candidate@, similarity as int),
        s@.well_formed(),
{
    let q = fold(query);
    let c = fold(candidate);
    semantic_folded(q.chars.as_slice(), &c, candidate, similarity)
}

} // verus!
