use suggester::record::{join_record, split_record};
use suggester::suggestion::Suggestion;
use suggester::text::{chars_of, string_of};

fn strings(items: &[&str]) -> Vec<String> {
    items.iter().map(|s| s.to_string()).collect()
}

#[test]
fn split_record_at_first_tab() {
    let (text, components) = split_record("hello\t0.5,-0.25,1").unwrap();
    assert_eq!(text, "hello");
    assert_eq!(components, strings(&["0.5", "-0.25", "1"]));
}

#[test]
fn split_record_without_tab_is_nothing() {
    assert!(split_record("hello 0.5,0.25").is_none());
    assert!(split_record("").is_none());
}

#[test]
fn split_record_keeps_empty_pieces() {
    let (text, components) = split_record("\t,").unwrap();
    assert_eq!(text, "");
    assert_eq!(components, strings(&["", ""]));
    let (_, components) = split_record("w\t,1,,2,").unwrap();
    assert_eq!(components, strings(&["", "1", "", "2", ""]));
}

#[test]
fn split_record_leaves_later_tabs_in_the_components() {
    let (text, components) = split_record("two words\t1\t2,3").unwrap();
    assert_eq!(text, "two words");
    assert_eq!(components, strings(&["1\t2", "3"]));
}

#[test]
fn split_record_agrees_with_std_split() {
    for line in ["a\tb", "\ta,b", "x\t1,2,3,4", "é\t1e-3,NaN", "k\t,,", "a,b\tc,d"] {
        let (text, components) = split_record(line).unwrap();
        let mut parts = line.splitn(2, '\t');
        assert_eq!(text, parts.next().unwrap());
        let want: Vec<String> = parts.next().unwrap().split(',').map(String::from).collect();
        assert_eq!(components, want);
    }
}

#[test]
fn nothing_after_the_tab_is_no_component() {
    let (text, components) = split_record("word\t").unwrap();
    assert_eq!(text, "word");
    assert!(components.is_empty());
    let (text, components) = split_record("\t").unwrap();
    assert_eq!(text, "");
    assert!(components.is_empty());
}

#[test]
fn join_record_writes_one_line() {
    assert_eq!(join_record("hello", &strings(&["0.5", "-0.25", "1"])), "hello\t0.5,-0.25,1\n");
    assert_eq!(join_record("w", &strings(&["1"])), "w\t1\n");
    assert_eq!(join_record("w", &[]), "w\t\n");
    assert_eq!(join_record("", &strings(&["", ""])), "\t,\n");
}

#[test]
fn written_records_read_back() {
    let cases =
        [("alpha", vec!["0.1", "0.2"]), ("two words", vec!["-1"]), ("", vec!["7", "3"]), ("none", vec![])];
    for (text, components) in cases {
        let line = join_record(text, &strings(&components));
        let (got_text, got_components) = split_record(line.trim_end_matches('\n')).unwrap();
        assert_eq!(got_text, text);
        assert_eq!(got_components, strings(&components));
    }
}

#[test]
fn chars_of_lists_the_characters() {
    assert_eq!(chars_of("héy"), vec!['h', 'é', 'y']);
    assert!(chars_of("").is_empty());
}

#[test]
fn string_of_takes_a_range() {
    let chars = chars_of("banana");
    assert_eq!(string_of(&chars, 1, 4), "ana");
    assert_eq!(string_of(&chars, 0, 6), "banana");
    assert_eq!(string_of(&chars, 3, 3), "");
}

#[test]
fn highlight_mask_marks_the_matched_characters() {
    let s = Suggestion { text: "cat".to_string(), match_indices: vec![0, 2], score: 129 };
    assert_eq!(s.highlight_mask(), vec![true, false, true]);
    let none = Suggestion { text: "dog".to_string(), match_indices: vec![], score: 0 };
    assert_eq!(none.highlight_mask(), vec![false, false, false]);
    let empty = Suggestion { text: String::new(), match_indices: vec![], score: 1000 };
    assert!(empty.highlight_mask().is_empty());
}

#[test]
fn highlight_mask_counts_characters_and_passes_over_strays() {
    let s = Suggestion { text: "éa".to_string(), match_indices: vec![1, 5], score: 10 };
    assert_eq!(s.highlight_mask(), vec![false, true]);
}

#[test]
fn highlight_mask_of_a_match() {
    let s = suggester::lexical::fuzzy_match("bnn", "Banana").unwrap();
    assert_eq!(s.highlight_mask(), vec![true, false, true, false, true, false]);
}
