//! Words and their counts.

use loop_guard::terms::term_freq;
use loop_guard::words::{keep_content, split_at_marks, stopwords, tokenize};

#[test]
fn stop_words_and_single_letters_are_dropped() {
    assert_eq!(tokenize("Wait, the Format-String isn't a bug!"), vec!["format", "string", "isn", "bug"]);
}

#[test]
fn letters_are_lowered_and_digits_stay() {
    assert_eq!(tokenize("Line 410: ERRORS x y2"), vec!["line", "410", "errors", "y2"]);
}

#[test]
fn nothing_is_left_of_punctuation() {
    assert!(tokenize("").is_empty());
    assert!(tokenize(" ,.!? -- ").is_empty());
}

#[test]
fn a_single_letter_of_several_bytes_counts_as_a_word() {
    assert_eq!(tokenize("\u{c9} \u{e9}t\u{e9}"), vec!["\u{e9}", "\u{e9}t\u{e9}"]);
}

#[test]
fn all_stop_words_are_there() {
    let words = stopwords();
    assert_eq!(words.len(), 69);
    assert_eq!(words[0], "the");
    assert_eq!(words[68], "m");
    for word in words {
        assert!(tokenize(word).is_empty(), "{}", word);
    }
}

#[test]
fn words_are_counted_in_order_of_first_occurrence() {
    let tokens: Vec<String> = ["b", "a", "b", "c", "a", "b"].iter().map(|s| s.to_string()).collect();
    let counts: Vec<(String, usize)> =
        term_freq(&tokens).into_iter().map(|t| (t.word, t.count)).collect();
    let expected = vec![("b".to_string(), 3), ("a".to_string(), 2), ("c".to_string(), 1)];
    assert_eq!(counts, expected);
}

#[test]
fn texts_are_cut_at_unmarked_characters() {
    let chars: Vec<char> = "ab,,c".chars().collect();
    let marks = vec![true, true, false, false, true];
    assert_eq!(split_at_marks(&chars, &marks), vec!["ab", "", "c"]);
    assert_eq!(split_at_marks(&Vec::new(), &Vec::new()), vec![""]);
    assert_eq!(split_at_marks(&vec!['a'], &vec![false]), vec!["", ""]);
}

#[test]
fn content_is_kept_in_order() {
    let words: Vec<String> = ["beta", "the", "x", "", "alpha", "Wait"].iter().map(|s| s.to_string()).collect();
    assert_eq!(keep_content(&words), vec!["beta", "alpha", "Wait"]);
}

#[test]
fn words_end_at_separators() {
    let mut both = tokenize("alpha be");
    both.extend(tokenize("ta gamma"));
    assert_eq!(tokenize("alpha be-ta gamma"), both);
    assert_ne!(tokenize("alpha beta gamma"), both);
}
