//! Strings.

use loop_guard::settings::parse_number;
use loop_guard::text::{
    byte_len, char_len, chars_of, decimal_text, join, slice_between, str_eq, string_of,
};

#[test]
fn strings_are_compared_and_measured() {
    assert!(str_eq("", ""));
    assert!(str_eq("na\u{ef}ve", "na\u{ef}ve"));
    assert!(!str_eq("a", "b"));
    assert!(!str_eq("a", "ab"));
    assert_eq!(byte_len("na\u{ef}ve"), 6);
    assert_eq!(char_len("na\u{ef}ve"), 5);
}

#[test]
fn strings_are_joined() {
    let parts: Vec<String> = ["a", "", "b"].iter().map(|s| s.to_string()).collect();
    assert_eq!(join(&parts, "\n"), "a\n\nb");
    assert_eq!(join(&Vec::new(), "\n"), "");
    assert_eq!(join(&vec!["x".to_string()], ", "), "x");
}

#[test]
fn numbers_are_rendered_and_read_back() {
    for n in [0u64, 9, 10, 99, 100, 4096, u64::MAX] {
        let text = decimal_text(n);
        assert_eq!(text, n.to_string());
        assert_eq!(parse_number(&text), text.parse().ok());
    }
}

#[test]
fn texts_are_cut_at_byte_offsets() {
    let text = "a\u{e9}b";
    assert_eq!(slice_between(text, 1, 3), "\u{e9}");
    assert_eq!(slice_between(text, 0, 4), text);
    assert_eq!(slice_between(text, 4, 4), "");
    let chars = chars_of(text);
    assert_eq!(chars.len(), 3);
    assert_eq!(string_of(&chars, 1, 3), "\u{e9}b");
}
