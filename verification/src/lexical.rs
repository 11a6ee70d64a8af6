//! The lexical scorer: how well a candidate answers a query, judged by
//! substring, prefix, subsequence and edit distance.

use vstd::prelude::*;
use crate::distance::{edit_distance, edit_distance_of};
use crate::suggestion::{
    as_positions, lemma_as_positions_push, never_falls, strictly_increasing, within, Suggestion,
    SuggestionView, MAX_SCORE,
};
use crate::text::{
    case_form, fold, folded, lemma_case_form_empty, lemma_origins, lowercased, origins, Folded,
};

verus! {

/// The first place at or after `from` where `ch` stands in `hay`.
pub open spec fn index_from(hay: Seq<char>, ch: char, from: int) -> Option<int>
    decreases hay.len() - from,
{
    if from < 0 || from >= hay.len() {
        None
    } else if hay[from] == ch {
        Some(from)
    } else {
        index_from(hay, ch, from + 1)
    }
}

/// `index_from` finds the least position that qualifies, and finds none
/// only where none qualifies.
pub proof fn lemma_index_from(hay: Seq<char>, ch: char, from: int)
    requires
        0 <= from,
    ensures
        match index_from(hay, ch, from) {
            Some(p) => {
                &&& from <= p < hay.len()
                &&& hay[p] == ch
                &&& forall|r: int| from <= r < p ==> hay[r] != ch
            },
            None => forall|r: int| from <= r < hay.len() ==> hay[r] != ch,
        },
    decreases hay.len() - from,
{
    if from < hay.len() && hay[from] != ch {
        lemma_index_from(hay, ch, from + 1);
    }
}

/// The place after the last of `positions`, where a scan goes on.
pub open spec fn resume_point(positions: Seq<int>) -> int {
    if positions.len() == 0 {
        0
    } else {
        positions.last() + 1
    }
}

/// The leftmost way to find the characters of `query` in `hay`, in order:
/// each character is taken at the first place after the one before it.
/// `None` where some character cannot be placed.
pub open spec fn leftmost_positions(query: Seq<char>, hay: Seq<char>) -> Option<Seq<int>>
    decreases query.len(),
{
    if query.len() == 0 {
        Some(Seq::empty())
    } else {
        match leftmost_positions(query.drop_last(), hay) {
            None => None,
            Some(before) => match index_from(hay, query.last(), resume_point(before)) {
                None => None,
                Some(p) => Some(before.push(p)),
            },
        }
    }
}

/// `positions` places the characters of `query` in `hay`, one after the
/// other and in order.
pub open spec fn is_embedding(query: Seq<char>, hay: Seq<char>, positions: Seq<int>) -> bool {
    &&& positions.len() == query.len()
    &&& strictly_increasing(positions)
    &&& forall|k: int|
        0 <= k < positions.len() ==> 0 <= #[trigger] positions[k] < hay.len()
            && hay[positions[k]] == query[k]
}

/// The characters of `query` occur in `hay` in the same order, not
/// necessarily side by side.
pub open spec fn is_subsequence(query: Seq<char>, hay: Seq<char>) -> bool {
    exists|positions: Seq<int>| is_embedding(query, hay, positions)
}

/// What `leftmost_positions` finds is an embedding.
pub proof fn lemma_leftmost_is_embedding(query: Seq<char>, hay: Seq<char>)
    requires
        leftmost_positions(query, hay) is Some,
    ensures
        is_embedding(query, hay, leftmost_positions(query, hay)->0),
        is_subsequence(query, hay),
    decreases query.len(),
{
    if query.len() > 0 {
        let before = leftmost_positions(query.drop_last(), hay)->0;
        lemma_leftmost_is_embedding(query.drop_last(), hay);
        lemma_index_from(hay, query.last(), resume_point(before));
    }
}

/// Wherever `query` can be embedded at all, `leftmost_positions` succeeds,
/// and no embedding places any character earlier than it does.
pub proof fn lemma_leftmost_is_least(query: Seq<char>, hay: Seq<char>, other: Seq<int>)
    requires
        is_embedding(query, hay, other),
    ensures
        leftmost_positions(query, hay) is Some,
        forall|k: int|
            0 <= k < query.len() ==> (#[trigger] leftmost_positions(query, hay)->0[k]) <= other[k],
    decreases query.len(),
{
    if query.len() > 0 {
        let shorter = other.drop_last();
        assert(is_embedding(query.drop_last(), hay, shorter));
        lemma_leftmost_is_least(query.drop_last(), hay, shorter);
        lemma_leftmost_is_embedding(query.drop_last(), hay);
        let before = leftmost_positions(query.drop_last(), hay)->0;
        let last = query.len() - 1;
        if before.len() > 0 {
            assert(before[last - 1] <= shorter[last - 1]);
            assert(other[last - 1] < other[last]);
        }
        lemma_index_from(hay, query.last(), resume_point(before));
    }
}

/// A query is matched exactly where it is a subsequence of the candidate.
pub proof fn lemma_leftmost_iff_subsequence(query: Seq<char>, hay: Seq<char>)
    ensures
        leftmost_positions(query, hay) is Some <==> is_subsequence(query, hay),
{
    if leftmost_positions(query, hay) is Some {
        lemma_leftmost_is_embedding(query, hay);
    }
    if is_subsequence(query, hay) {
        let positions = choose|positions: Seq<int>| is_embedding(query, hay, positions);
        lemma_leftmost_is_least(query, hay, positions);
    }
}

/// `needle` stands in `hay` at `p`, character for character.
pub open spec fn occurs_at(hay: Seq<char>, needle: Seq<char>, p: int) -> bool {
    &&& 0 <= p
    &&& p + needle.len() <= hay.len()
    &&& forall|k: int| 0 <= k < needle.len() ==> hay[p + k] == #[trigger] needle[k]
}

/// The first place at or after `from` where `needle` stands in `hay`.
pub open spec fn occurrence_from(hay: Seq<char>, needle: Seq<char>, from: int) -> Option<int>
    decreases hay.len() - from,
{
    if from < 0 || from + needle.len() > hay.len() {
        None
    } else if occurs_at(hay, needle, from) {
        Some(from)
    } else {
        occurrence_from(hay, needle, from + 1)
    }
}

/// The first place where `needle` stands in `hay` as a contiguous run.
pub open spec fn first_occurrence(hay: Seq<char>, needle: Seq<char>) -> Option<int> {
    occurrence_from(hay, needle, 0)
}

/// `occurrence_from` finds the least place that qualifies, and finds none
/// only where none qualifies.
pub proof fn lemma_occurrence_from(hay: Seq<char>, needle: Seq<char>, from: int)
    requires
        0 <= from,
    ensures
        match occurrence_from(hay, needle, from) {
            Some(p) => {
                &&& from <= p
                &&& occurs_at(hay, needle, p)
                &&& forall|r: int| from <= r < p ==> !occurs_at(hay, needle, r)
            },
            None => forall|r: int| from <= r ==> !occurs_at(hay, needle, r),
        },
    decreases hay.len() - from,
{
    if from + needle.len() <= hay.len() && !occurs_at(hay, needle, from) {
        lemma_occurrence_from(hay, needle, from + 1);
    }
}

/// The characters skipped between each position and the next, summed up.
pub open spec fn gap_total(positions: Seq<int>) -> int
    decreases positions.len(),
{
    if positions.len() < 2 {
        0
    } else {
        gap_total(positions.drop_last()) + (positions.last() - positions[positions.len() - 2] - 1)
    }
}

/// What a contiguous occurrence is worth, whatever its place.
pub const SUBSTRING_BONUS: usize = 200;

/// What each character of the query, and each matched character, is worth.
pub const PER_CHARACTER_BONUS: usize = 10;

/// What an occurrence at the very start is worth on top; one less for each
/// place further in.
pub const POSITION_BONUS: usize = 100;

/// What a candidate that starts with the query is worth on top.
pub const PREFIX_BONUS: usize = 150;

/// What a subsequence match without gaps is worth on top; one less for each
/// character skipped.
pub const TIGHTNESS_BONUS: usize = 50;

/// Edit distances above this earn nothing.
pub const DISTANCE_REACH: usize = 2;

/// What each edit short of `DISTANCE_REACH + 1` is worth.
pub const DISTANCE_BONUS: usize = 30;

/// `bonus` less `penalty`, and nothing where the penalty is the larger.
pub open spec fn decayed(bonus: nat, penalty: int) -> nat {
    if penalty <= 0 {
        bonus
    } else if penalty < bonus {
        (bonus - penalty) as nat
    } else {
        0
    }
}

/// The bonus for the query standing in the candidate as a contiguous run
/// that starts at `at`.
pub open spec fn substring_bonus(query_len: nat, at: Option<int>) -> nat {
    match at {
        Some(p) => SUBSTRING_BONUS as nat + PER_CHARACTER_BONUS as nat * query_len + decayed(
            POSITION_BONUS as nat,
            p,
        ),
        None => 0,
    }
}

/// The bonus for the candidate starting with the query.
pub open spec fn prefix_bonus(is_prefix: bool) -> nat {
    if is_prefix {
        PREFIX_BONUS as nat
    } else {
        0
    }
}

/// The bonus for `matched` characters found in order with `gaps` characters
/// skipped between them.
pub open spec fn subsequence_bonus(matched: nat, gaps: int) -> nat {
    if matched > 0 {
        PER_CHARACTER_BONUS as nat * matched + decayed(TIGHTNESS_BONUS as nat, gaps)
    } else {
        0
    }
}

/// The bonus for a candidate within `DISTANCE_REACH` edits of the query.
pub open spec fn distance_bonus(distance: nat) -> nat {
    if distance <= DISTANCE_REACH {
        (DISTANCE_REACH as nat + 1 - distance) as nat * DISTANCE_BONUS as nat
    } else {
        0
    }
}

/// `total`, capped at `MAX_SCORE`.
pub open spec fn clamped(total: nat) -> nat {
    if total > MAX_SCORE {
        MAX_SCORE as nat
    } else {
        total
    }
}

/// The score of a candidate that is not the query itself: the four bonuses
/// summed and capped.
pub open spec fn combined_score(
    query_len: nat,
    substring_at: Option<int>,
    is_prefix: bool,
    matched: nat,
    gaps: int,
    distance: nat,
) -> nat {
    clamped(
        substring_bonus(query_len, substring_at) + prefix_bonus(is_prefix) + subsequence_bonus(
            matched,
            gaps,
        ) + distance_bonus(distance),
    )
}

/// With everything else the same, more matched characters never lower the
/// score.
pub proof fn lemma_score_rises_with_matched(
    query_len: nat,
    substring_at: Option<int>,
    is_prefix: bool,
    fewer: nat,
    more: nat,
    gaps: int,
    distance: nat,
)
    requires
        fewer <= more,
    ensures
        combined_score(query_len, substring_at, is_prefix, fewer, gaps, distance) <= combined_score(
            query_len,
            substring_at,
            is_prefix,
            more,
            gaps,
            distance,
        ),
{
    assert(PER_CHARACTER_BONUS as nat * fewer <= PER_CHARACTER_BONUS as nat * more)
        by (nonlinear_arith)
        requires
            fewer <= more,
    ;
}

/// With everything else the same, more skipped characters never raise the
/// score.
pub proof fn lemma_score_falls_with_gaps(
    query_len: nat,
    substring_at: Option<int>,
    is_prefix: bool,
    matched: nat,
    tighter: int,
    looser: int,
    distance: nat,
)
    requires
        tighter <= looser,
    ensures
        combined_score(query_len, substring_at, is_prefix, matched, looser, distance)
            <= combined_score(query_len, substring_at, is_prefix, matched, tighter, distance),
{
}

/// The score is never above `MAX_SCORE`.
pub proof fn lemma_score_bounded(
    query_len: nat,
    substring_at: Option<int>,
    is_prefix: bool,
    matched: nat,
    gaps: int,
    distance: nat,
)
    ensures
        combined_score(query_len, substring_at, is_prefix, matched, gaps, distance) <= MAX_SCORE,
{
}

/// A position held in a machine integer, as a mathematical integer.
pub open spec fn as_position(at: Option<usize>) -> Option<int> {
    match at {
        Some(p) => Some(p as int),
        None => None,
    }
}

/// The first place at or after `from` where `ch` stands in `hay`.
pub fn find_char_from(hay: &[char], ch: char, from: usize) -> (found: Option<usize>)
    ensures
        as_position(found) == index_from(hay@, ch, from as int),
{
    let mut i: usize = from;
    while i < hay.len()
        invariant
            from <= i,
            index_from(hay@, ch, from as int) == index_from(hay@, ch, i as int),
        decreases hay.len() - i,
    {
        if hay[i] == ch {
            return Some(i);
        }
        i += 1;
    }
    None
}

/// The leftmost positions at which the characters of `query` are found in
/// `hay`, in order; `None` where `query` is no subsequence of `hay`.
pub fn scan_positions(query: &[char], hay: &[char]) -> (found: Option<Vec<usize>>)
    ensures
        found is Some <==> is_subsequence(query@, hay@),
        match found {
            Some(positions) => leftmost_positions(query@, hay@) == Some(
                as_positions(positions@),
            ),
            None => leftmost_positions(query@, hay@) is None,
        },
{
    let mut positions: Vec<usize> = Vec::new();
    let mut next: usize = 0;
    let mut k: usize = 0;
    proof {
        assert(as_positions(positions@) =~= Seq::<int>::empty());
    }
    while k < query.len()
        invariant
            k <= query.len(),
            next <= hay.len(),
            next == resume_point(as_positions(positions@)),
            leftmost_positions(query@.take(k as int), hay@) == Some(as_positions(positions@)),
        decreases query.len() - k,
    {
        proof {
            assert(query@.take(k + 1).drop_last() =~= query@.take(k as int));
            lemma_index_from(hay@, query@[k as int], next as int);
        }
        match find_char_from(hay, query[k], next) {
            None => {
                proof {
                    lemma_leftmost_needs_prefix(query@, hay@, k + 1);
                    lemma_leftmost_iff_subsequence(query@, hay@);
                }
                return None;
            },
            Some(p) => {
                proof {
                    lemma_as_positions_push(positions@, p);
                }
                positions.push(p);
                next = p + 1;
            },
        }
        k += 1;
    }
    proof {
        assert(query@.take(k as int) =~= query@);
        lemma_leftmost_iff_subsequence(query@, hay@);
    }
    Some(positions)
}

/// Where the first `k` characters of `query` cannot be placed, neither can
/// all of them.
pub proof fn lemma_leftmost_needs_prefix(query: Seq<char>, hay: Seq<char>, k: int)
    requires
        0 <= k <= query.len(),
        leftmost_positions(query.take(k), hay) is None,
    ensures
        leftmost_positions(query, hay) is None,
    decreases query.len() - k,
{
    if k < query.len() {
        assert(query.take(k + 1).drop_last() =~= query.take(k));
        lemma_leftmost_needs_prefix(query, hay, k + 1);
    } else {
        assert(query.take(k) =~= query);
    }
}

/// Whether `needle` stands in `hay` at `p`.
fn matches_at(hay: &[char], needle: &[char], p: usize) -> (same: bool)
    requires
        p + needle.len() <= hay.len(),
    ensures
        same == occurs_at(hay@, needle@, p as int),
{
    let mut k: usize = 0;
    while k < needle.len()
        invariant
            k <= needle.len(),
            p + needle.len() <= hay.len(),
            forall|j: int| 0 <= j < k ==> hay@[p + j] == #[trigger] needle@[j],
        decreases needle.len() - k,
    {
        if hay[p + k] != needle[k] {
            return false;
        }
        k += 1;
    }
    true
}

/// The first place where `needle` stands in `hay` as a contiguous run.
pub fn find_substring(hay: &[char], needle: &[char]) -> (found: Option<usize>)
    ensures
        as_position(found) == first_occurrence(hay@, needle@),
{
    if needle.len() > hay.len() {
        return None;
    }
    let last: usize = hay.len() - needle.len();
    let mut p: usize = 0;
    while p <= last
        invariant
            last == hay.len() - needle.len(),
            p <= last + 1,
            first_occurrence(hay@, needle@) == occurrence_from(hay@, needle@, p as int),
        decreases last + 1 - p,
    {
        if matches_at(hay, needle, p) {
            return Some(p);
        }
        p += 1;
    }
    None
}

/// The characters skipped between each of `positions` and the next, summed
/// up.
pub fn gap_sum(positions: &[usize]) -> (gaps: usize)
    requires
        strictly_increasing(as_positions(positions@)),
    ensures
        gaps == gap_total(as_positions(positions@)),
{
    let ghost all = as_positions(positions@);
    let mut gaps: usize = 0;
    let mut k: usize = 1;
    while k < positions.len()
        invariant
            1 <= k,
            all == as_positions(positions@),
            strictly_increasing(all),
            k <= positions.len() ==> gaps == gap_total(all.take(k as int)),
            k <= positions.len() ==> gaps <= positions[k - 1],
            k > positions.len() ==> gaps == 0 && positions.len() == 0,
        decreases positions.len() - k,
    {
        proof {
            assert(all.take(k + 1).drop_last() =~= all.take(k as int));
            assert(all[k - 1] < all[k as int]);
        }
        gaps += positions[k] - positions[k - 1] - 1;
        k += 1;
    }
    proof {
        assert(all.len() == positions.len());
        if positions.len() >= 1 {
            assert(all.take(positions.len() as int) =~= all);
        }
    }
    gaps
}

/// `PER_CHARACTER_BONUS` for each of `count` characters, capped at
/// `MAX_SCORE`.
fn per_character(count: usize) -> (bonus: usize)
    ensures
        bonus == clamped(PER_CHARACTER_BONUS as nat * count as nat),
{
    if count >= MAX_SCORE / PER_CHARACTER_BONUS {
        MAX_SCORE
    } else {
        PER_CHARACTER_BONUS * count
    }
}

/// `bonus` less `penalty`, and nothing where the penalty is the larger.
fn decay(bonus: usize, penalty: usize) -> (left: usize)
    ensures
        left == decayed(bonus as nat, penalty as int),
{
    if penalty < bonus {
        bonus - penalty
    } else {
        0
    }
}

/// The score of a candidate that is not the query itself, from the signals
/// measured on it: the length of the query, where the query first stands in
/// the candidate as a contiguous run, whether the candidate starts with it,
/// how many characters the subsequence scan matched and how many it
/// skipped between them, and the edit distance.
pub fn combine_score(
    query_len: usize,
    substring_at: Option<usize>,
    is_prefix: bool,
    matched: usize,
    gaps: usize,
    distance: usize,
) -> (score: usize)
    ensures
        score == combined_score(
            query_len as nat,
            as_position(substring_at),
            is_prefix,
            matched as nat,
            gaps as int,
            distance as nat,
        ),
{
    let mut total: usize = 0;
    match substring_at {
        Some(p) => {
            total += SUBSTRING_BONUS + per_character(query_len) + decay(POSITION_BONUS, p);
        },
        None => {},
    }
    if is_prefix {
        total += PREFIX_BONUS;
    }
    if matched > 0 {
        total += per_character(matched) + decay(TIGHTNESS_BONUS, gaps);
    }
    if distance <= DISTANCE_REACH {
        total += (DISTANCE_REACH + 1 - distance) * DISTANCE_BONUS;
    }
    if total > MAX_SCORE {
        MAX_SCORE
    } else {
        total
    }
}

/// The score of a candidate whose folded form is `hay` and in which the
/// whole of `query` was found: `MAX_SCORE` where the two are equal, and the
/// combined bonuses otherwise, with every character of the query counted as
/// matched.
pub open spec fn lexical_score(query: Seq<char>, hay: Seq<char>) -> nat {
    if query == hay {
        MAX_SCORE as nat
    } else {
        combined_score(
            query.len(),
            first_occurrence(hay, query),
            occurs_at(hay, query, 0),
            query.len(),
            match leftmost_positions(query, hay) {
                Some(positions) => gap_total(positions),
                None => 0,
            },
            edit_distance(query, hay),
        )
    }
}

/// The positions `0, 1, ..` up to `len`, each of them once.
pub open spec fn every_position(len: nat) -> Seq<int> {
    Seq::new(len, |i: int| i)
}

/// The positions in the text that the folded characters at `positions`
/// came from, in order and each once.
pub open spec fn sources(positions: Seq<int>, origins: Seq<int>) -> Seq<int>
    decreases positions.len(),
{
    if positions.len() == 0 {
        Seq::empty()
    } else {
        let before = sources(positions.drop_last(), origins);
        let origin = origins[positions.last()];
        if before.len() > 0 && before.last() == origin {
            before
        } else {
            before.push(origin)
        }
    }
}

/// The sources of rising positions rise strictly and are positions of the
/// text.
pub proof fn lemma_sources_rise(positions: Seq<int>, origins: Seq<int>, len: nat)
    requires
        strictly_increasing(positions),
        within(positions, origins.len()),
        never_falls(origins),
        within(origins, len),
    ensures
        strictly_increasing(sources(positions, origins)),
        within(sources(positions, origins), len),
        positions.len() > 0 ==> sources(positions, origins).len() > 0 && sources(
            positions,
            origins,
        ).last() == origins[positions.last()],
    decreases positions.len(),
{
    if positions.len() > 0 {
        let shorter = positions.drop_last();
        lemma_sources_rise(shorter, origins, len);
        let before = sources(shorter, origins);
        let origin = origins[positions.last()];
        assert(0 <= positions[positions.len() - 1] < origins.len());
        if shorter.len() > 0 {
            assert(shorter.last() == positions[positions.len() - 2]);
            assert(positions[positions.len() - 2] < positions[positions.len() - 1]);
            assert(before.last() <= origin);
            assert forall|j: int| 0 <= j < before.len() implies before[j] <= before.last() by {
                if j < before.len() - 1 {
                    assert(before[j] < before[before.len() - 1]);
                }
            }
        }
    }
}

/// The positions in the text that the folded characters at `positions`
/// came from, in order and each once.
pub fn source_positions(positions: &[usize], origins: &[usize]) -> (found: Vec<usize>)
    requires
        within(as_positions(positions@), origins@.len()),
    ensures
        as_positions(found@) == sources(as_positions(positions@), as_positions(origins@)),
{
    let ghost all = as_positions(positions@);
    let ghost from = as_positions(origins@);
    let mut found: Vec<usize> = Vec::new();
    let mut k: usize = 0;
    proof {
        assert(as_positions(found@) =~= Seq::<int>::empty());
        assert(all.take(0) =~= Seq::<int>::empty());
    }
    while k < positions.len()
        invariant
            k <= positions.len(),
            all == as_positions(positions@),
            from == as_positions(origins@),
            within(all, origins@.len()),
            as_positions(found@) == sources(all.take(k as int), from),
        decreases positions.len() - k,
    {
        proof {
            assert(all.take(k + 1).drop_last() =~= all.take(k as int));
            assert(0 <= all[k as int] < origins@.len());
            assert(as_positions(found@).len() == found@.len());
        }
        let origin: usize = origins[positions[k]];
        let fresh = found.len() == 0 || found[found.len() - 1] != origin;
        if fresh {
            proof {
                lemma_as_positions_push(found@, origin);
            }
            found.push(origin);
        }
        k += 1;
    }
    proof {
        assert(all.take(k as int) =~= all);
    }
    found
}

/// The suggestion for a candidate `text` whose folded form is `hay`, with
/// `origins` leading from each character of `hay` back into `text`, against
/// a folded `query`. There is none where `query` is no subsequence of
/// `hay`. Where the two are equal every position of `text` is marked;
/// otherwise the positions that the leftmost match came from.
pub open spec fn lexical_match(
    query: Seq<char>,
    hay: Seq<char>,
    origins: Seq<int>,
    text: Seq<char>,
) -> Option<SuggestionView> {
    match leftmost_positions(query, hay) {
        Some(positions) => Some(
            SuggestionView {
                text,
                match_indices: if query == hay {
                    every_position(text.len())
                } else {
                    sources(positions, origins)
                },
                score: lexical_score(query, hay),
            },
        ),
        None => None,
    }
}

/// The view of a suggestion that may be missing.
pub open spec fn option_view(found: Option<Suggestion>) -> Option<SuggestionView> {
    match found {
        Some(s) => Some(s@),
        None => None,
    }
}

/// The positions `0, 1, ..` up to `len`.
fn positions_up_to(len: usize) -> (all: Vec<usize>)
    ensures
        as_positions(all@) == every_position(len as nat),
{
    let mut all: Vec<usize> = Vec::new();
    let mut i: usize = 0;
    while i < len
        invariant
            i <= len,
            all@.len() == i,
            forall|j: int| 0 <= j < i ==> all@[j] == j,
        decreases len - i,
    {
        all.push(i);
        i += 1;
    }
    assert(as_positions(all@) =~= every_position(len as nat));
    all
}

/// Scores the candidate `text`, folded into `candidate`, against the
/// folded characters `query`.
pub fn match_folded(query: &[char], candidate: &Folded, text: &str) -> (found: Option<
    Suggestion,
>)
    requires
        candidate.maps_into(text@.len()),
    ensures
        option_view(found) == lexical_match(
            query@,
            candidate.chars@,
            as_positions(candidate.origins@),
            text@,
        ),
        found is Some <==> is_subsequence(query@, candidate.chars@),
        found matches Some(s) ==> s@.well_formed(),
{
    let hay = candidate.chars.as_slice();
    let positions = match scan_positions(query, hay) {
        None => {
            return None;
        },
        Some(positions) => positions,
    };
    proof {
        lemma_leftmost_is_embedding(query@, hay@);
        lemma_occurrence_from(hay@, query@, 0);
        lemma_sources_rise(
            as_positions(positions@),
            as_positions(candidate.origins@),
            text@.len(),
        );
    }
    if query.len() == hay.len() && matches_at(hay, query, 0) {
        assert(query@ =~= hay@);
        let match_indices = positions_up_to(text.unicode_len());
        Some(Suggestion { text: text.to_owned(), match_indices, score: MAX_SCORE })
    } else {
        let substring_at = find_substring(hay, query);
        let is_prefix = match substring_at {
            Some(p) => p == 0,
            None => false,
        };
        let gaps = gap_sum(positions.as_slice());
        let distance = edit_distance_of(query, hay);
        let score = combine_score(query.len(), substring_at, is_prefix, query.len(), gaps, distance);
        let match_indices = source_positions(positions.as_slice(), candidate.origins.as_slice());
        Some(Suggestion { text: text.to_owned(), match_indices, score })
    }
}

/// What `fuzzy_match` makes of a query and a candidate: the lexical match
/// of the forms in which they are matched, told in positions of the
/// candidate.
pub open spec fn fuzzy_match_of(query: Seq<char>, candidate: Seq<char>) -> Option<
    SuggestionView,
> {
    lexical_match(case_form(query), case_form(candidate), origins(candidate), candidate)
}

/// Lowercasing `s` as a whole gives as many characters as lowercasing its
/// characters one by one.
pub open spec fn keeps_count(s: Seq<char>) -> bool {
    lowercased(s).len() == folded(s).len()
}

/// Scores `candidate` against `query` without regard to case. There is a
/// suggestion exactly where the lowercase query is a subsequence of the
/// lowercase candidate; an empty query is one of every candidate. The
/// positions are those of the characters of `candidate` in which the query
/// was found.
pub fn fuzzy_match(query: &str, candidate: &str) -> (found: Option<Suggestion>)
    ensures
        option_view(found) == fuzzy_match_of(query@, candidate@),
        found is Some <==> is_subsequence(case_form(query@), case_form(candidate@)),
        keeps_count(query@) && keeps_count(candidate@) ==> (found is Some <==> is_subsequence(
            lowercased(query@),
            lowercased(candidate@),
        )),
        found matches Some(s) ==> s@.well_formed(),
        query@.len() == 0 ==> found is Some,
        query@ == candidate@ ==> option_view(found) == Some(
            SuggestionView {
                text: candidate@,
                match_indices: every_position(candidate@.len()),
                score: MAX_SCORE as nat,
            },
        ),
{
    let q = fold(query);
    let c = fold(candidate);
    proof {
        lemma_fuzzy_match_iff_subsequence(query@, candidate@);
        lemma_fuzzy_match_of_self(candidate@);
    }
    match_folded(q.chars.as_slice(), &c, candidate)
}

/// The first `k` characters of `hay` are found in `hay` where they stand.
pub proof fn lemma_leftmost_of_prefix(hay: Seq<char>, k: int)
    requires
        0 <= k <= hay.len(),
    ensures
        leftmost_positions(hay.take(k), hay) == Some(every_position(k as nat)),
    decreases k,
{
    if k > 0 {
        lemma_leftmost_of_prefix(hay, k - 1);
        assert(hay.take(k).drop_last() =~= hay.take(k - 1));
        assert(every_position((k - 1) as nat).push(k - 1) =~= every_position(k as nat));
    } else {
        assert(every_position(0) =~= Seq::<int>::empty());
    }
}

/// A candidate that equals the query once both are folded gets the highest
/// score, and every character of it is highlighted.
pub proof fn lemma_exact_match(folded: Seq<char>, origins: Seq<int>, text: Seq<char>)
    ensures
        lexical_match(folded, folded, origins, text) == Some(
            SuggestionView {
                text,
                match_indices: every_position(text.len()),
                score: MAX_SCORE as nat,
            },
        ),
{
    lemma_leftmost_of_prefix(folded, folded.len() as int);
    assert(folded.take(folded.len() as int) =~= folded);
}

/// Any string matched against itself gets the highest score, with every
/// character of it highlighted.
pub proof fn lemma_fuzzy_match_of_self(s: Seq<char>)
    ensures
        fuzzy_match_of(s, s) == Some(
            SuggestionView {
                text: s,
                match_indices: every_position(s.len()),
                score: MAX_SCORE as nat,
            },
        ),
{
    lemma_exact_match(case_form(s), origins(s), s);
}

/// Two strings with the same lowercase form match with the highest score,
/// and every character of the candidate is highlighted.
pub proof fn lemma_fuzzy_match_of_equal_lowercase(query: Seq<char>, candidate: Seq<char>)
    ensures
        keeps_count(query) && keeps_count(candidate) && lowercased(query) == lowercased(candidate)
            ==> fuzzy_match_of(query, candidate) == Some(
            SuggestionView {
                text: candidate,
                match_indices: every_position(candidate.len()),
                score: MAX_SCORE as nat,
            },
        ),
{
    lemma_exact_match(case_form(candidate), origins(candidate), candidate);
}

/// There is a suggestion exactly where the query is a subsequence of the
/// candidate, both in the form in which they are matched: their lowercase
/// forms, where lowercasing keeps the count of characters. An empty query
/// is one of any candidate.
pub proof fn lemma_fuzzy_match_iff_subsequence(query: Seq<char>, candidate: Seq<char>)
    ensures
        fuzzy_match_of(query, candidate) is Some <==> is_subsequence(
            case_form(query),
            case_form(candidate),
        ),
        keeps_count(query) && keeps_count(candidate) ==> (fuzzy_match_of(query, candidate) is Some
            <==> is_subsequence(lowercased(query), lowercased(candidate))),
        query.len() == 0 ==> fuzzy_match_of(query, candidate) is Some,
{
    lemma_leftmost_iff_subsequence(case_form(query), case_form(candidate));
    if query.len() == 0 {
        lemma_case_form_empty(query);
    }
}

/// A query with a character that cannot be found in the candidate, in
/// order and without regard to case, gets no suggestion.
pub proof fn lemma_no_match_without_subsequence(query: Seq<char>, candidate: Seq<char>)
    requires
        !is_subsequence(case_form(query), case_form(candidate)),
    ensures
        fuzzy_match_of(query, candidate) is None,
        query.len() > 0,
{
    lemma_fuzzy_match_iff_subsequence(query, candidate);
}

/// Every lexical suggestion keeps its positions rising and inside its
/// text, and its score at or below `MAX_SCORE`.
pub proof fn lemma_fuzzy_match_well_formed(query: Seq<char>, candidate: Seq<char>)
    requires
        fuzzy_match_of(query, candidate) is Some,
    ensures
        fuzzy_match_of(query, candidate)->0.well_formed(),
{
    lemma_origins(candidate);
    lemma_leftmost_is_embedding(case_form(query), case_form(candidate));
    lemma_sources_rise(
        leftmost_positions(case_form(query), case_form(candidate))->0,
        origins(candidate),
        candidate.len(),
    );
}

} // verus!
