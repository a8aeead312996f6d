//! Bytes that arrive in chunks.

use loop_guard::decoding::{decode, decode_chunk};

fn texts(chunks: &[&[u8]]) -> (Vec<String>, Vec<u8>) {
    let mut tail = Vec::new();
    let texts = chunks.iter().map(|c| decode_chunk(&mut tail, c)).collect();
    (texts, tail)
}

#[test]
fn characters_survive_every_cut() {
    let text = "a\u{e9}\u{65e5}\u{1f600}z";
    let bytes = text.as_bytes();
    for i in 0..=bytes.len() {
        for j in i..=bytes.len() {
            let (out, tail) = texts(&[&bytes[..i], &bytes[i..j], &bytes[j..]]);
            assert_eq!(out.concat(), text);
            assert!(tail.is_empty());
        }
    }
    let singles: Vec<&[u8]> = bytes.chunks(1).collect();
    assert_eq!(texts(&singles).0.concat(), text);
}

#[test]
fn the_beginning_of_a_character_waits() {
    let (out, tail) = texts(&[b"ab\xe6\x97"]);
    assert_eq!(out, vec!["ab"]);
    assert_eq!(tail, vec![0xe6, 0x97]);
    assert_eq!(decode(&tail), "\u{fffd}");
}

#[test]
fn what_is_no_character_is_replaced() {
    assert_eq!(texts(&[b"a\xff", b"b"]).0, vec!["a\u{fffd}", "b"]);
    assert_eq!(texts(&[b"a\xc3", b"b"]).0, vec!["a", "\u{fffd}b"]);
    assert_eq!(texts(&[b"\x97\x97\x97\x97"]).1, Vec::<u8>::new());
}
