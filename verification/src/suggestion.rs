//! The annotated entry of a suggestion list.

use vstd::prelude::*;

verus! {

/// The highest score a suggestion can carry.
pub const MAX_SCORE: usize = 1000;

/// One candidate as it is shown for a query: its text, the character
/// positions to highlight, and a figure of merit between 0 and `MAX_SCORE`.
#[derive(Clone, Debug, PartialEq, Eq)]
pub struct Suggestion {
    pub text: String,
    pub match_indices: Vec<usize>,
    pub score: usize,
}

/// A suggestion as a mathematical value.
pub struct SuggestionView {
    pub text: Seq<char>,
    pub match_indices: Seq<int>,
    pub score: nat,
}

/// Positions held in machine integers, as mathematical integers.
pub open spec fn as_positions(indices: Seq<usize>) -> Seq<int> {
    indices.map_values(|i: usize| i as int)
}

/// Every position lies after the one before it.
pub open spec fn strictly_increasing(positions: Seq<int>) -> bool {
    forall|j: int, k: int| 0 <= j < k < positions.len() ==> positions[j] < positions[k]
}

/// No position lies before the one before it.
pub open spec fn never_falls(positions: Seq<int>) -> bool {
    forall|j: int, k: int| 0 <= j < k < positions.len() ==> positions[j] <= positions[k]
}

/// Every position points at one of the first `len` characters.
pub open spec fn within(positions: Seq<int>, len: nat) -> bool {
    forall|k: int| 0 <= k < positions.len() ==> 0 <= #[trigger] positions[k] < len
}

impl View for Suggestion {
    type V = SuggestionView;

    open spec fn view(&self) -> SuggestionView {
        SuggestionView {
            text: self.text@,
            match_indices: as_positions(self.match_indices@),
            score: self.score as nat,
        }
    }
}

impl SuggestionView {
    /// The highlighted positions rise strictly and stay inside a text of
    /// `len` characters, and the score is at most `MAX_SCORE`.
    pub open spec fn fits(self, len: nat) -> bool {
        &&& strictly_increasing(self.match_indices)
        &&& within(self.match_indices, len)
        &&& self.score <= MAX_SCORE
    }

    /// The suggestion fits its own text.
    pub open spec fn well_formed(self) -> bool {
        self.fits(self.text.len())
    }
}

/// The views of a list of suggestions, in the same order.
pub open spec fn views(list: Seq<Suggestion>) -> Seq<SuggestionView> {
    list.map_values(|s: Suggestion| s@)
}

/// Appending to `indices` appends the same position to its view.
pub proof fn lemma_as_positions_push(indices: Seq<usize>, i: usize)
    ensures
        as_positions(indices.push(i)) == as_positions(indices).push(i as int),
{
    assert(as_positions(indices.push(i)) =~= as_positions(indices).push(i as int));
}

/// Appending to a list appends the same view to its views.
pub proof fn lemma_views_push(list: Seq<Suggestion>, s: Suggestion)
    ensures
        views(list.push(s)) == views(list).push(s@),
{
    assert(views(list.push(s)) =~= views(list).push(s@));
}

impl Suggestion {
    /// For each character of the text, whether it is to be highlighted.
    /// An index that is no position of the text marks nothing.
    pub fn highlight_mask(&self) -> (mask: Vec<bool>)
        ensures
            mask@.len() == self.text@.len(),
            forall|i: int| 0 <= i < mask@.len() ==> mask@[i] == self@.match_indices.contains(i),
    {
        let len: usize = self.text.as_str().unicode_len();
        let mut mask: Vec<bool> = Vec::new();
        let mut i: usize = 0;
        while i < len
            invariant
                i <= len,
                mask@.len() == i,
                forall|j: int| 0 <= j < i ==> !mask@[j],
            decreases len - i,
        {
            mask.push(false);
            i += 1;
        }
        let ghost positions = as_positions(self.match_indices@);
        let mut k: usize = 0;
        while k < self.match_indices.len()
            invariant
                k <= self.match_indices.len(),
                positions == as_positions(self.match_indices@),
                mask@.len() == len,
                forall|j: int| 0 <= j < len ==> mask@[j] == positions.take(k as int).contains(j),
            decreases self.match_indices.len() - k,
        {
            let p: usize = self.match_indices[k];
            if p < len {
                mask[p] = true;
            }
            proof {
                let shorter = positions.take(k as int);
                let longer = positions.take(k + 1);
                assert(longer =~= shorter.push(p as int));
                assert forall|j: int| 0 <= j < len implies mask@[j] == longer.contains(j) by {
                    if shorter.contains(j) {
                        let w = choose|w: int| 0 <= w < shorter.len() && shorter[w] == j;
                        assert(longer[w] == j);
                    }
                    if j == p {
                        assert(longer[k as int] == j);
                    }
                    if longer.contains(j) && j != p {
                        let w = choose|w: int| 0 <= w < longer.len() && longer[w] == j;
                        assert(shorter[w] == j);
                    }
                }
            }
            k += 1;
        }
        assert(positions.take(k as int) =~= positions);
        mask
    }
}

} // verus!
