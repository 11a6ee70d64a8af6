use suggester::lexical::{
    combine_score, find_char_from, find_substring, fuzzy_match, gap_sum, match_folded,
    scan_positions, source_positions,
};
use suggester::text::{fold, Folded};

fn chars(s: &str) -> Vec<char> {
    s.chars().collect()
}

#[test]
fn exact_match_scores_highest() {
    let s = fuzzy_match("hey", "hey").unwrap();
    assert_eq!(s.score, 1000);
    assert_eq!(s.match_indices, vec![0, 1, 2]);
    assert_eq!(s.text, "hey");
}

#[test]
fn any_string_matches_itself() {
    let words =
        ["", "a", "Hello World", "rust", "ÉCOLE", "a-b_c", "日本語", "İ", "İstanbul", "ΟΔΟΣ", "ǅ"];
    for word in words {
        let s = fuzzy_match(word, word).unwrap();
        assert_eq!(s.score, 1000);
        let len = word.chars().count();
        assert_eq!(s.match_indices, (0..len).collect::<Vec<usize>>());
        assert_eq!(s.text, word);
    }
}

#[test]
fn positions_are_those_of_the_text() {
    // The lowercase form of the first character has two characters.
    let own = fuzzy_match("İ", "İ").unwrap();
    assert_eq!(own.match_indices, vec![0]);
    assert_eq!(own.score, 1000);
    let end = fuzzy_match("ul", "İstanbul").unwrap();
    assert_eq!(end.match_indices, vec![6, 7]);
    let middle = fuzzy_match("st", "İstanbul").unwrap();
    assert_eq!(middle.match_indices, vec![1, 2]);
    let start = fuzzy_match("is", "İstanbul").unwrap();
    assert_eq!(start.match_indices, vec![0, 1]);
}

#[test]
fn one_character_is_marked_once() {
    // Both characters of the query are found in the lowercase form of `İ`.
    let s = fuzzy_match("i\u{307}", "İ").unwrap();
    assert_eq!(s.score, 1000);
    assert_eq!(s.match_indices, vec![0]);
    let t = fuzzy_match("i\u{307}s", "İstanbul").unwrap();
    assert_eq!(t.match_indices, vec![0, 1]);
    assert_eq!(t.text, "İstanbul");
    for i in &t.match_indices {
        assert!(*i < t.text.chars().count());
    }
}

#[test]
fn fold_keeps_the_origin_of_each_character() {
    let plain = fold("CaT");
    assert_eq!(plain.chars, vec!['c', 'a', 't']);
    assert_eq!(plain.origins, vec![0, 1, 2]);
    let longer = fold("İs");
    assert_eq!(longer.chars, vec!['i', '\u{307}', 's']);
    assert_eq!(longer.origins, vec![0, 0, 1]);
    let empty = fold("");
    assert!(empty.chars.is_empty());
    assert!(empty.origins.is_empty());
}

#[test]
fn fold_lowercases_the_text_as_a_whole() {
    // A capital sigma at the end of a word has a lowercase form of its own.
    let f = fold("ΣΑΣ");
    assert_eq!(f.chars, vec!['σ', 'α', 'ς']);
    assert_eq!(f.origins, vec![0, 1, 2]);
    assert_eq!(fold("ΟΔΟΣ").chars, fold("οδος").chars);
}

#[test]
fn a_word_matches_itself_in_capitals() {
    let s = fuzzy_match("οδος", "ΟΔΟΣ").unwrap();
    assert_eq!(s.score, 1000);
    assert_eq!(s.match_indices, vec![0, 1, 2, 3]);
    assert_eq!(s.text, "ΟΔΟΣ");
    let t = fuzzy_match("ΟΔΟΣ", "οδος").unwrap();
    assert_eq!(t.score, 1000);
    let end = fuzzy_match("ος", "ΟΔΟΣ").unwrap();
    assert_eq!(end.match_indices, vec![0, 3]);
}

#[test]
fn the_lowercase_form_of_the_candidate_decides() {
    // The lowercase form of the candidate ends in a final sigma.
    assert!(fuzzy_match("σ", "ΑΣ").is_none());
    assert!(fuzzy_match("οδοσ", "ΟΔΟΣ").is_none());
    assert_eq!(fuzzy_match("ς", "ΑΣ").unwrap().match_indices, vec![1]);
    assert_eq!(fuzzy_match("σ", "ΣΑ").unwrap().match_indices, vec![0]);
}

#[test]
fn matches_agree_with_the_lowercase_forms() {
    let words = ["ΟΔΟΣ", "οδος", "ΑΣ", "Σ", "İstanbul", "Hey", "heyp", "", "ΣΑΣ"];
    let is_subsequence = |q: &str, c: &str| {
        let mut rest = c.chars();
        q.chars().all(|x| rest.any(|y| y == x))
    };
    for query in words {
        for candidate in words {
            let (q, c) = (query.to_lowercase(), candidate.to_lowercase());
            let found = fuzzy_match(query, candidate);
            assert_eq!(found.is_some(), is_subsequence(&q, &c));
            if let Some(s) = found {
                assert_eq!(s.score == 1000, q == c);
                for i in &s.match_indices {
                    assert!(*i < candidate.chars().count());
                }
            }
        }
    }
}

#[test]
fn source_positions_lists_each_origin_once() {
    assert_eq!(source_positions(&[0, 1, 2], &[0, 0, 1, 2]), vec![0, 1]);
    assert_eq!(source_positions(&[1, 3], &[0, 0, 1, 2]), vec![0, 2]);
    assert_eq!(source_positions(&[], &[0, 0, 1]), Vec::<usize>::new());
    assert_eq!(source_positions(&[0, 1, 2], &[4, 4, 4]), vec![4]);
    assert_eq!(source_positions(&[2], &[0, 1, 2]), vec![2]);
}

#[test]
fn case_is_ignored() {
    let s = fuzzy_match("HeY", "hey").unwrap();
    assert_eq!(s.score, 1000);
    let t = fuzzy_match("hey", "HEY").unwrap();
    assert_eq!(t.score, 1000);
    assert_eq!(t.text, "HEY");
    let u = fuzzy_match("CT", "cat").unwrap();
    assert_eq!(u.match_indices, vec![0, 2]);
}

#[test]
fn unmatched_query_gives_nothing() {
    assert!(fuzzy_match("hey", "xyz").is_none());
    assert!(fuzzy_match("abc", "acb").is_none());
    assert!(fuzzy_match("aa", "a").is_none());
    assert!(fuzzy_match("a", "").is_none());
    assert!(fuzzy_match("tc", "cat").is_none());
}

#[test]
fn prefix_substring_match() {
    // substring at 0: 200 + 3 * 10 + 100; prefix: 150; subsequence: 3 * 10 + 50;
    // one edit away: 60.
    let s = fuzzy_match("hey", "heyp").unwrap();
    assert_eq!(s.score, 620);
    assert_eq!(s.match_indices, vec![0, 1, 2]);
}

#[test]
fn subsequence_with_gap() {
    // no substring, no prefix; subsequence: 2 * 10 + (50 - 1); one edit away: 60.
    let s = fuzzy_match("ct", "cat").unwrap();
    assert_eq!(s.match_indices, vec![0, 2]);
    assert_eq!(s.score, 129);
    assert!(s.score > 0);
    let contiguous = fuzzy_match("ca", "cat").unwrap();
    assert_eq!(contiguous.score, 600);
    assert!(s.score < contiguous.score);
}

#[test]
fn later_substring_scores_less() {
    // substring at 4: 200 + 20 + 96; subsequence: 20 + 50; distance 4: nothing.
    let s = fuzzy_match("ab", "xxxxab").unwrap();
    assert_eq!(s.match_indices, vec![4, 5]);
    assert_eq!(s.score, 386);
    let earlier = fuzzy_match("ab", "xabxxx").unwrap();
    assert_eq!(earlier.score, 389);
}

#[test]
fn position_bonus_floors_at_zero() {
    let far = format!("{}ab", "x".repeat(150));
    let s = fuzzy_match("ab", &far).unwrap();
    // substring at 150: 200 + 20 + 0; subsequence: 20 + 50.
    assert_eq!(s.score, 290);
    assert_eq!(s.match_indices, vec![150, 151]);
}

#[test]
fn gap_bonus_floors_at_zero() {
    let wide = format!("a{}b", "x".repeat(60));
    let s = fuzzy_match("ab", &wide).unwrap();
    // no substring; subsequence: 20 + 0.
    assert_eq!(s.score, 20);
    assert_eq!(s.match_indices, vec![0, 61]);
}

#[test]
fn scan_takes_leftmost_positions() {
    let s = fuzzy_match("ab", "a_ab").unwrap();
    assert_eq!(s.match_indices, vec![0, 3]);
    // substring at 2: 200 + 20 + 98; subsequence: 20 + (50 - 2); distance 2: 30.
    assert_eq!(s.score, 416);
}

#[test]
fn empty_query_matches_everything() {
    let s = fuzzy_match("", "ab").unwrap();
    assert!(s.match_indices.is_empty());
    // substring at 0: 200 + 0 + 100; prefix: 150; nothing matched; distance 2: 30.
    assert_eq!(s.score, 480);
    let long = fuzzy_match("", "abcdef").unwrap();
    assert_eq!(long.score, 450);
    let both = fuzzy_match("", "").unwrap();
    assert_eq!(both.score, 1000);
    assert!(both.match_indices.is_empty());
}

#[test]
fn long_query_is_clamped() {
    let query = "a".repeat(120);
    let candidate = format!("{}b", query);
    let s = fuzzy_match(&query, &candidate).unwrap();
    assert_eq!(s.score, 1000);
    assert_eq!(s.match_indices.len(), 120);
}

#[test]
fn positions_rise_and_stay_inside() {
    let candidates = ["banana", "Bandana", "cabana", "an", "nab", ""];
    for query in ["an", "ban", "aaa", "", "nn"] {
        for candidate in candidates {
            if let Some(s) = fuzzy_match(query, candidate) {
                assert!(s.score <= 1000);
                assert_eq!(s.match_indices.len(), query.chars().count());
                for pair in s.match_indices.windows(2) {
                    assert!(pair[0] < pair[1]);
                }
                let text = chars(candidate);
                let q = chars(&query.to_lowercase());
                for (k, &i) in s.match_indices.iter().enumerate() {
                    assert!(i < text.len());
                    assert_eq!(text[i].to_lowercase().next(), Some(q[k]));
                }
            }
        }
    }
}

#[test]
fn match_folded_takes_folded_characters() {
    let s = match_folded(&chars("ct"), &fold("CAT"), "CAT").unwrap();
    assert_eq!(s.text, "CAT");
    assert_eq!(s.match_indices, vec![0, 2]);
    assert_eq!(s.score, 129);
    assert!(match_folded(&chars("CT"), &fold("cat"), "cat").is_none());
    let own = Folded { chars: chars("i\u{307}"), origins: vec![0, 0] };
    let t = match_folded(&chars("i\u{307}"), &own, "İ").unwrap();
    assert_eq!(t.match_indices, vec![0]);
    assert_eq!(t.score, 1000);
    let u = match_folded(&chars("\u{307}"), &own, "İ").unwrap();
    assert_eq!(u.match_indices, vec![0]);
}

#[test]
fn combine_score_adds_the_bonuses() {
    assert_eq!(combine_score(2, None, false, 2, 1, 1), 129);
    assert_eq!(combine_score(3, Some(0), true, 3, 0, 1), 620);
    assert_eq!(combine_score(3, Some(5), false, 3, 0, 2), 200 + 30 + 95 + 30 + 50 + 30);
    assert_eq!(combine_score(0, None, false, 0, 0, 3), 0);
    assert_eq!(combine_score(0, None, false, 0, 0, 0), 90);
    assert_eq!(combine_score(1, None, false, 1, 50, 9), 10);
    assert_eq!(combine_score(1, None, false, 1, 49, 9), 11);
    assert_eq!(combine_score(1, Some(100), false, 0, 0, 9), 210);
    assert_eq!(combine_score(1, Some(99), false, 0, 0, 9), 211);
}

#[test]
fn combine_score_is_clamped() {
    assert_eq!(combine_score(100, Some(0), true, 100, 0, 0), 1000);
    assert_eq!(combine_score(usize::MAX, Some(usize::MAX), true, usize::MAX, usize::MAX, 0), 1000);
    assert_eq!(combine_score(0, None, false, usize::MAX, 0, usize::MAX), 1000);
    assert_eq!(combine_score(55, Some(0), false, 0, 0, 9), 850);
    assert_eq!(combine_score(55, Some(0), true, 0, 0, 9), 1000);
}

#[test]
fn score_rises_with_matched_and_falls_with_gaps() {
    let mut last = 0;
    for matched in 0..120 {
        let score = combine_score(4, Some(3), false, matched, 7, 2);
        assert!(score >= last);
        last = score;
    }
    let mut last = 1000;
    for gaps in 0..80 {
        let score = combine_score(4, None, false, 4, gaps, 5);
        assert!(score <= last);
        last = score;
    }
}

#[test]
fn find_substring_finds_first_occurrence() {
    assert_eq!(find_substring(&chars("abcabc"), &chars("bc")), Some(1));
    assert_eq!(find_substring(&chars("abcabc"), &chars("abc")), Some(0));
    assert_eq!(find_substring(&chars("abcabc"), &chars("cab")), Some(2));
    assert_eq!(find_substring(&chars("abcabc"), &chars("cb")), None);
    assert_eq!(find_substring(&chars("abc"), &chars("abcd")), None);
    assert_eq!(find_substring(&chars("abc"), &chars("")), Some(0));
    assert_eq!(find_substring(&chars(""), &chars("")), Some(0));
    assert_eq!(find_substring(&chars("aab"), &chars("ab")), Some(1));
    assert_eq!(find_substring(&chars("xyz"), &chars("z")), Some(2));
}

#[test]
fn find_char_from_starts_where_told() {
    let hay = chars("banana");
    assert_eq!(find_char_from(&hay, 'a', 0), Some(1));
    assert_eq!(find_char_from(&hay, 'a', 1), Some(1));
    assert_eq!(find_char_from(&hay, 'a', 2), Some(3));
    assert_eq!(find_char_from(&hay, 'b', 1), None);
    assert_eq!(find_char_from(&hay, 'a', 6), None);
    assert_eq!(find_char_from(&hay, 'a', 60), None);
    assert_eq!(find_char_from(&[], 'a', 0), None);
}

#[test]
fn scan_positions_is_greedy() {
    assert_eq!(scan_positions(&chars("ana"), &chars("banana")), Some(vec![1, 2, 3]));
    assert_eq!(scan_positions(&chars("bnn"), &chars("banana")), Some(vec![0, 2, 4]));
    assert_eq!(scan_positions(&chars("nab"), &chars("banana")), None);
    assert_eq!(scan_positions(&chars(""), &chars("banana")), Some(vec![]));
    assert_eq!(scan_positions(&chars(""), &chars("")), Some(vec![]));
    assert_eq!(scan_positions(&chars("a"), &chars("")), None);
}

#[test]
fn gap_sum_counts_skipped_characters() {
    assert_eq!(gap_sum(&[]), 0);
    assert_eq!(gap_sum(&[7]), 0);
    assert_eq!(gap_sum(&[0, 1, 2]), 0);
    assert_eq!(gap_sum(&[0, 2]), 1);
    assert_eq!(gap_sum(&[0, 2, 4]), 2);
    assert_eq!(gap_sum(&[3, 10, 11, 20]), 6 + 0 + 8);
}
