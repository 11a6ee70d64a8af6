//! The ranker: scores every candidate and orders the suggestions, best
//! first.

use vstd::prelude::*;
use vstd::seq_lib::lemma_multiset_commutative;
use crate::lexical::{fuzzy_match_of, match_folded};
use crate::semantic::{semantic_folded, semantic_match_of};
use crate::suggestion::{lemma_views_push, views, Suggestion, SuggestionView};
use crate::text::{case_form, fold, texts};

verus! {

/// No suggestion stands before one with a higher score.
pub open spec fn is_ranked(list: Seq<SuggestionView>) -> bool {
    forall|i: int, j: int| 0 <= i < j < list.len() ==> list[i].score >= list[j].score
}

/// No suggestion stands before one with a lower score.
pub open spec fn is_rising(list: Seq<SuggestionView>) -> bool {
    forall|i: int, j: int| 0 <= i < j < list.len() ==> list[i].score <= list[j].score
}

/// No suggestion of `low` outscores one of `high`.
pub open spec fn none_above(low: Seq<SuggestionView>, high: Seq<SuggestionView>) -> bool {
    forall|i: int, k: int|
        0 <= i < low.len() && 0 <= k < high.len() ==> (#[trigger] low[i]).score <= (
        #[trigger] high[k]).score
}

/// In a ranked list each neighbour scores at least as much as the next.
pub proof fn lemma_ranked_neighbours(list: Seq<SuggestionView>)
    requires
        is_ranked(list),
    ensures
        forall|i: int|
            0 <= i && i + 1 < list.len() ==> (#[trigger] list[i]).score >= list[i + 1].score,
{
}

/// A list whose neighbours never rise is ranked.
pub proof fn lemma_neighbours_ranked(list: Seq<SuggestionView>)
    requires
        forall|i: int|
            0 <= i && i + 1 < list.len() ==> (#[trigger] list[i]).score >= list[i + 1].score,
    ensures
        is_ranked(list),
{
    assert forall|i: int, j: int| 0 <= i < j < list.len() implies list[i].score
        >= list[j].score by {
        lemma_neighbours_chain(list, i, j);
    }
}

proof fn lemma_neighbours_chain(list: Seq<SuggestionView>, i: int, j: int)
    requires
        forall|k: int|
            0 <= k && k + 1 < list.len() ==> (#[trigger] list[k]).score >= list[k + 1].score,
        0 <= i <= j < list.len(),
    ensures
        list[i].score >= list[j].score,
    decreases j - i,
{
    if i < j {
        lemma_neighbours_chain(list, i, j - 1);
    }
}

/// Moves the suggestions of `from` onto the end of `onto`, last first.
fn move_reversed(from: &mut Vec<Suggestion>, onto: &mut Vec<Suggestion>)
    ensures
        final(from)@.len() == 0,
        views(final(onto)@) == views(old(onto)@) + views(old(from)@).reverse(),
{
    let ghost target = views(onto@) + views(from@).reverse();
    while from.len() > 0
        invariant
            views(onto@) + views(from@).reverse() == target,
        decreases from.len(),
    {
        let ghost before_from = from@;
        let ghost before_onto = onto@;
        let s = from.pop().unwrap();
        onto.push(s);
        proof {
            lemma_views_push(before_onto, s);
            assert(before_from =~= from@.push(s));
            lemma_views_push(from@, s);
            assert(views(onto@) + views(from@).reverse() =~= views(before_onto) + views(
                before_from,
            ).reverse());
        }
    }
    assert(views(from@).reverse() =~= Seq::<SuggestionView>::empty());
    assert(views(onto@) + Seq::<SuggestionView>::empty() =~= views(onto@));
}

/// Merges two ranked lists into one.
fn merge_ranked(left: Vec<Suggestion>, right: Vec<Suggestion>) -> (merged: Vec<Suggestion>)
    requires
        is_ranked(views(left@)),
        is_ranked(views(right@)),
    ensures
        is_ranked(views(merged@)),
        views(merged@).to_multiset() == views(left@).to_multiset().add(
            views(right@).to_multiset(),
        ),
{
    broadcast use {vstd::multiset::group_multiset_axioms, vstd::seq_lib::group_to_multiset_ensures};

    let ghost total = views(left@).to_multiset().add(views(right@).to_multiset());
    let mut left = left;
    let mut right = right;
    // The merged list from its end: lowest scores first.
    let mut rising: Vec<Suggestion> = Vec::new();
    proof {
        assert(views(rising@) =~= Seq::<SuggestionView>::empty());
        vstd::multiset::lemma_multiset_empty_len(views(rising@).to_multiset());
        assert(views(rising@).to_multiset().add(views(left@).to_multiset()).add(
            views(right@).to_multiset(),
        ) =~= total);
    }
    while left.len() > 0 && right.len() > 0
        invariant
            is_ranked(views(left@)),
            is_ranked(views(right@)),
            is_rising(views(rising@)),
            none_above(views(rising@), views(left@)),
            none_above(views(rising@), views(right@)),
            views(rising@).to_multiset().add(views(left@).to_multiset()).add(
                views(right@).to_multiset(),
            ) == total,
        decreases left.len() + right.len(),
    {
        let ghost old_left = left@;
        let ghost old_right = right@;
        let ghost old_rising = rising@;
        let from_left = left[left.len() - 1].score < right[right.len() - 1].score;
        let s = if from_left {
            left.pop().unwrap()
        } else {
            right.pop().unwrap()
        };
        rising.push(s);
        proof {
            lemma_views_push(old_rising, s);
            if from_left {
                assert(old_left =~= left@.push(s));
                lemma_views_push(left@, s);
                assert(views(old_left).last() == s@);
            } else {
                assert(old_right =~= right@.push(s));
                lemma_views_push(right@, s);
                assert(views(old_right).last() == s@);
            }
            assert(views(old_left).last().score >= s.score);
            assert(views(old_right).last().score >= s.score);
            assert forall|i: int, k: int|
                0 <= i < views(rising@).len() && 0 <= k < views(left@).len() implies (
            #[trigger] views(rising@)[i]).score <= (#[trigger] views(left@)[k]).score by {
                assert(views(left@)[k] == views(old_left)[k]);
                if i < old_rising.len() {
                    assert(views(rising@)[i] == views(old_rising)[i]);
                }
            }
            assert forall|i: int, k: int|
                0 <= i < views(rising@).len() && 0 <= k < views(right@).len() implies (
            #[trigger] views(rising@)[i]).score <= (#[trigger] views(right@)[k]).score by {
                assert(views(right@)[k] == views(old_right)[k]);
                if i < old_rising.len() {
                    assert(views(rising@)[i] == views(old_rising)[i]);
                }
            }
            assert forall|i: int, j: int| 0 <= i < j < views(rising@).len() implies views(
                rising@,
            )[i].score <= views(rising@)[j].score by {
                assert(views(rising@)[i] == views(old_rising)[i]);
                if j < old_rising.len() {
                    assert(views(rising@)[j] == views(old_rising)[j]);
                } else {
                    assert(views(old_rising)[i].score <= views(old_left).last().score);
                    assert(views(old_rising)[i].score <= views(old_right).last().score);
                }
            }
            assert forall|i: int, j: int| 0 <= i < j < views(left@).len() implies views(
                left@,
            )[i].score >= views(left@)[j].score by {
                assert(views(left@)[i] == views(old_left)[i]);
                assert(views(left@)[j] == views(old_left)[j]);
            }
            assert forall|i: int, j: int| 0 <= i < j < views(right@).len() implies views(
                right@,
            )[i].score >= views(right@)[j].score by {
                assert(views(right@)[i] == views(old_right)[i]);
                assert(views(right@)[j] == views(old_right)[j]);
            }
            vstd::seq_lib::to_multiset_build(views(old_rising), s@);
            assert(views(rising@).to_multiset() == views(old_rising).to_multiset().insert(s@));
            if from_left {
                vstd::seq_lib::to_multiset_build(views(left@), s@);
                assert(views(old_left).to_multiset() == views(left@).to_multiset().insert(s@));
            } else {
                vstd::seq_lib::to_multiset_build(views(right@), s@);
                assert(views(old_right).to_multiset() == views(right@).to_multiset().insert(s@));
            }
            assert(views(rising@).to_multiset().add(views(left@).to_multiset()).add(
                views(right@).to_multiset(),
            ) =~= views(old_rising).to_multiset().add(views(old_left).to_multiset()).add(
                views(old_right).to_multiset(),
            ));
        }
    }
    let ghost short_rising = views(rising@);
    let ghost rest_left = views(left@);
    let ghost rest_right = views(right@);
    move_reversed(&mut left, &mut rising);
    move_reversed(&mut right, &mut rising);
    let ghost all_rising = views(rising@);
    let mut merged: Vec<Suggestion> = Vec::new();
    assert(views(merged@) =~= Seq::<SuggestionView>::empty());
    move_reversed(&mut rising, &mut merged);
    proof {
        assert(all_rising == short_rising + rest_left.reverse() + rest_right.reverse());
        assert(views(merged@) =~= all_rising.reverse());
        assert(rest_left.len() == 0 || rest_right.len() == 0);
        assert(is_rising(all_rising));
        lemma_multiset_commutative(short_rising + rest_left.reverse(), rest_right.reverse());
        lemma_multiset_commutative(short_rising, rest_left.reverse());
        rest_left.lemma_reverse_to_multiset();
        rest_right.lemma_reverse_to_multiset();
        all_rising.lemma_reverse_to_multiset();
    }
    merged
}

/// Orders `list` by score, best first.
pub fn rank_by_score(list: Vec<Suggestion>) -> (ranked: Vec<Suggestion>)
    ensures
        is_ranked(views(ranked@)),
        views(ranked@).to_multiset() == views(list@).to_multiset(),
    decreases list.len(),
{
    if list.len() <= 1 {
        return list;
    }
    let ghost whole = list@;
    let mut left = list;
    let half: usize = left.len() / 2;
    let right = left.split_off(half);
    proof {
        assert(whole =~= left@ + right@);
        assert(views(whole) =~= views(left@) + views(right@));
        lemma_multiset_commutative(views(left@), views(right@));
    }
    let left = rank_by_score(left);
    let right = rank_by_score(right);
    merge_ranked(left, right)
}

/// The lexical suggestions for `candidates`, in the order of the
/// candidates, without those that the query does not match.
pub open spec fn lexical_matches(query: Seq<char>, candidates: Seq<Seq<char>>) -> Seq<
    SuggestionView,
>
    decreases candidates.len(),
{
    if candidates.len() == 0 {
        Seq::empty()
    } else {
        let before = lexical_matches(query, candidates.drop_last());
        match fuzzy_match_of(query, candidates.last()) {
            Some(s) => before.push(s),
            None => before,
        }
    }
}

/// Lists with the same suggestions, each as often, hold the same
/// suggestions.
pub proof fn lemma_same_members(a: Seq<SuggestionView>, b: Seq<SuggestionView>)
    requires
        a.to_multiset() == b.to_multiset(),
    ensures
        a.len() == b.len(),
        forall|s: SuggestionView| a.contains(s) <==> b.contains(s),
{
    a.to_multiset_ensures();
    b.to_multiset_ensures();
    assert forall|s: SuggestionView| a.contains(s) <==> b.contains(s) by {
        assert(a.contains(s) <==> a.to_multiset().count(s) > 0);
        assert(b.contains(s) <==> b.to_multiset().count(s) > 0);
    }
}

/// What holds of every suggestion of a list holds of every suggestion of
/// a rearrangement of it.
proof fn lemma_all_fit(a: Seq<SuggestionView>, b: Seq<SuggestionView>)
    requires
        a.to_multiset() == b.to_multiset(),
        forall|i: int| 0 <= i < a.len() ==> (#[trigger] a[i]).well_formed(),
    ensures
        forall|i: int| 0 <= i < b.len() ==> (#[trigger] b[i]).well_formed(),
{
    lemma_same_members(a, b);
    assert forall|i: int| 0 <= i < b.len() implies (#[trigger] b[i]).well_formed() by {
        assert(b.contains(b[i]));
        assert(a.contains(b[i]));
        let j = choose|j: int| 0 <= j < a.len() && a[j] == b[i];
        assert(a[j].well_formed());
    }
}

/// The suggestions for `query` among `options`, best first. A candidate is
/// listed exactly where the lowercase query is a subsequence of its
/// lowercase form; among equal scores no order is promised.
pub fn get_suggestions(query: &str, options: &[String]) -> (ranked: Vec<Suggestion>)
    ensures
        is_ranked(views(ranked@)),
        views(ranked@).to_multiset() == lexical_matches(query@, texts(options@)).to_multiset(),
        forall|i: int| 0 <= i < ranked.len() ==> (#[trigger] views(ranked@)[i]).well_formed(),
{
    let query_fold = fold(query);
    let q = query_fold.chars;
    let mut scored: Vec<Suggestion> = Vec::new();
    let mut i: usize = 0;
    assert(views(scored@) =~= Seq::<SuggestionView>::empty());
    assert(texts(options@).take(0) =~= Seq::<Seq<char>>::empty());
    while i < options.len()
        invariant
            i <= options.len(),
            q@ == case_form(query@),
            views(scored@) == lexical_matches(query@, texts(options@).take(i as int)),
            forall|k: int| 0 <= k < scored.len() ==> (#[trigger] views(scored@)[k]).well_formed(),
        decreases options.len() - i,
    {
        let candidate = options[i].as_str();
        let c = fold(candidate);
        proof {
            assert(texts(options@).take(i + 1).drop_last() =~= texts(options@).take(i as int));
            assert(texts(options@).take(i + 1).last() == candidate@);
        }
        match match_folded(q.as_slice(), &c, candidate) {
            Some(s) => {
                proof {
                    lemma_views_push(scored@, s);
                }
                scored.push(s);
            },
            None => {},
        }
        i += 1;
    }
    assert(texts(options@).take(i as int) =~= texts(options@));
    let ranked = rank_by_score(scored);
    proof {
        lemma_all_fit(views(scored@), views(ranked@));
    }
    ranked
}

/// The texts and similarities of a list of candidates.
pub open spec fn scored_texts(options: Seq<(String, i64)>) -> Seq<(Seq<char>, int)> {
    options.map_values(|o: (String, i64)| (o.0@, o.1 as int))
}

/// The semantic suggestions for `candidates`, in the order of the
/// candidates.
pub open spec fn semantic_matches(query: Seq<char>, candidates: Seq<(Seq<char>, int)>) -> Seq<
    SuggestionView,
> {
    candidates.map_values(|c: (Seq<char>, int)| semantic_match_of(query, c.0, c.1))
}

/// The suggestions for `query` in semantic mode, best first: one for each
/// of `options`, which pair a candidate with its similarity to the query.
/// Among equal scores no order is promised.
pub fn get_semantic_suggestions(query: &str, options: &[(String, i64)]) -> (ranked: Vec<
    Suggestion,
>)
    ensures
        is_ranked(views(ranked@)),
        views(ranked@).to_multiset() == semantic_matches(
            query@,
            scored_texts(options@),
        ).to_multiset(),
        ranked.len() == options.len(),
        forall|i: int| 0 <= i < ranked.len() ==> (#[trigger] views(ranked@)[i]).well_formed(),
{
    let query_fold = fold(query);
    let q = query_fold.chars;
    let mut scored: Vec<Suggestion> = Vec::new();
    let mut i: usize = 0;
    let ghost wanted = semantic_matches(query@, scored_texts(options@));
    assert(views(scored@) =~= wanted.take(0));
    while i < options.len()
        invariant
            i <= options.len(),
            q@ == case_form(query@),
            wanted == semantic_matches(query@, scored_texts(options@)),
            views(scored@) == wanted.take(i as int),
            forall|k: int| 0 <= k < scored.len() ==> (#[trigger] views(scored@)[k]).well_formed(),
        decreases options.len() - i,
    {
        let candidate = options[i].0.as_str();
        let c = fold(candidate);
        let s = semantic_folded(q.as_slice(), &c, candidate, options[i].1);
        proof {
            lemma_views_push(scored@, s);
            assert(wanted.take(i + 1) =~= wanted.take(i as int).push(s@));
        }
        scored.push(s);
        i += 1;
    }
    assert(wanted.take(i as int) =~= wanted);
    let ranked = rank_by_score(scored);
    proof {
        lemma_all_fit(views(scored@), views(ranked@));
        lemma_same_members(views(scored@), views(ranked@));
    }
    ranked
}

} // verus!
