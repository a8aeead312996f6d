//! Splitting a text into the words that carry its content.

use crate::text::{byte_len, chars_of, str_eq, views};
use vstd::prelude::*;
use vstd::utf8::encode_utf8;

verus! {

/// How many stop words there are.
pub const STOP_WORD_COUNT: usize = 69;

/// Words too common, or too typical of a restart, to tell two steps apart.
pub const STOP_WORDS: [&'static str; STOP_WORD_COUNT] = [
    "the", "a", "an", "is", "this", "that", "but", "and", "or", "to", "of", "in", "on", "at",
    "it", "be", "as", "with", "for", "was", "were", "are", "i", "we", "you", "not", "no", "so",
    "if", "then", "let", "me", "look", "looking", "more", "carefully", "just", "now", "wait",
    "actually", "hold", "hmm", "oh", "again", "here", "there", "would", "could", "should",
    "which", "what", "how", "do", "does", "did", "has", "have", "had", "will", "can", "may",
    "might", "s", "t", "re", "ve", "ll", "d", "m",
];

/// Does `char::is_alphanumeric` hold of the character?
pub uninterp spec fn alphanumeric(c: char) -> bool;

/// `char::is_alphanumeric`: a fixed property of the character. Of the ASCII
/// characters, the letters and the digits have it.
pub assume_specification[ char::is_alphanumeric ](c: char) -> (b: bool)
    ensures
        b == alphanumeric(c),
        is_ascii(c) ==> b == ascii_wordy(c),
;

/// Is the character an ASCII character?
pub open spec fn is_ascii(c: char) -> bool {
    c <= '\u{7f}'
}

/// Is the character an ASCII letter or digit?
pub open spec fn ascii_wordy(c: char) -> bool {
    'a' <= c <= 'z' || 'A' <= c <= 'Z' || '0' <= c <= '9'
}

/// An ASCII character in lower case.
pub open spec fn ascii_lower(c: char) -> char {
    if 'A' <= c <= 'Z' {
        (c as u32 + 32) as char
    } else {
        c
    }
}

/// What `str::to_lowercase` makes of a text.
pub uninterp spec fn lowercase(s: Seq<char>) -> Seq<char>;

/// `str::to_lowercase`: the result depends on the characters alone. Where all of
/// them are ASCII, each upper-case letter becomes its lower-case one, and nothing
/// else changes.
pub assume_specification[ str::to_lowercase ](s: &str) -> (lower: String)
    ensures
        lower@ == lowercase(s@),
        all_ascii(s@) ==> lower@ == s@.map_values(|c: char| ascii_lower(c)),
;

/// Is the word one of the stop words?
pub open spec fn is_stop_word(word: Seq<char>) -> bool {
    exists|i: int| 0 <= i < STOP_WORD_COUNT && (#[trigger] STOP_WORDS@[i])@ == word
}

/// The pieces of a text between the characters that are not marked as part of a
/// word; pieces may be empty, and there is always a last one.
pub open spec fn split_marked(text: Seq<char>, wordy: Seq<bool>) -> Seq<Seq<char>>
    decreases text.len(),
{
    if text.len() == 0 {
        seq![Seq::empty()]
    } else {
        let before = split_marked(text.drop_last(), wordy);
        if wordy[text.len() - 1] {
            before.drop_last().push(before.last().push(text.last()))
        } else {
            before.push(Seq::empty())
        }
    }
}

/// The pieces of a text between characters that are not alphanumeric.
pub open spec fn pieces(text: Seq<char>) -> Seq<Seq<char>> {
    split_marked(text, text.map_values(|c: char| alphanumeric(c)))
}

/// Does a lower-case word carry content: more than one byte, no stop word?
pub open spec fn is_content_word(word: Seq<char>) -> bool {
    encode_utf8(word).len() > 1 && !is_stop_word(word)
}

/// The words that carry content.
pub open spec fn kept(words: Seq<Seq<char>>) -> Seq<Seq<char>> {
    words.filter(|word: Seq<char>| is_content_word(word))
}

/// The content words of a text, in lower case and in order.
pub open spec fn tokens(text: Seq<char>) -> Seq<Seq<char>> {
    kept(pieces(text).map_values(|piece: Seq<char>| lowercase(piece)))
}

/// Is every character an ASCII character?
pub open spec fn all_ascii(text: Seq<char>) -> bool {
    forall|i: int| 0 <= i < text.len() ==> is_ascii(#[trigger] text[i])
}

/// The content words of an ASCII text.
pub open spec fn ascii_tokens(text: Seq<char>) -> Seq<Seq<char>> {
    kept(
        split_marked(text, text.map_values(|c: char| ascii_wordy(c))).map_values(
            |piece: Seq<char>| piece.map_values(|c: char| ascii_lower(c)),
        ),
    )
}

/// The stop words.
pub fn stopwords() -> (words: Vec<&'static str>)
    ensures
        words@ == STOP_WORDS@,
{
    let mut words: Vec<&'static str> = Vec::new();
    let mut i: usize = 0;
    while i < STOP_WORD_COUNT
        invariant
            i <= STOP_WORD_COUNT,
            words@ == STOP_WORDS@.take(i as int),
        decreases STOP_WORD_COUNT - i,
    {
        words.push(STOP_WORDS[i]);
        assert(STOP_WORDS@.take(i + 1) =~= STOP_WORDS@.take(i as int).push(STOP_WORDS@[i as int]));
        i += 1;
    }
    assert(STOP_WORDS@.take(i as int) =~= STOP_WORDS@);
    words
}

/// Is the word one of the stop words?
fn stops(stop: &Vec<&'static str>, word: &str) -> (b: bool)
    requires
        stop@ == STOP_WORDS@,
    ensures
        b == is_stop_word(word@),
{
    let mut i: usize = 0;
    while i < stop.len()
        invariant
            stop@ == STOP_WORDS@,
            i <= stop@.len(),
            forall|j: int| 0 <= j < i ==> (#[trigger] STOP_WORDS@[j])@ != word@,
        decreases stop@.len() - i,
    {
        if str_eq(stop[i], word) {
            assert(STOP_WORDS@[i as int]@ == word@);
            return true;
        }
        i += 1;
    }
    false
}

/// Marks the characters that are part of a word.
fn mark_words(chars: &Vec<char>) -> (wordy: Vec<bool>)
    ensures
        wordy@ == chars@.map_values(|c: char| alphanumeric(c)),
        all_ascii(chars@) ==> wordy@ == chars@.map_values(|c: char| ascii_wordy(c)),
{
    let mut wordy: Vec<bool> = Vec::new();
    let mut i: usize = 0;
    while i < chars.len()
        invariant
            i <= chars@.len(),
            wordy@.len() == i,
            forall|j: int| 0 <= j < i ==> #[trigger] wordy@[j] == alphanumeric(chars@[j]),
            forall|j: int|
                0 <= j < i && is_ascii(chars@[j]) ==> #[trigger] wordy@[j] == ascii_wordy(chars@[j]),
        decreases chars@.len() - i,
    {
        let c: char = chars[i];
        wordy.push(c.is_alphanumeric());
        i += 1;
    }
    assert(wordy@ =~= chars@.map_values(|c: char| alphanumeric(c)));
    proof {
        if all_ascii(chars@) {
            assert(wordy@ =~= chars@.map_values(|c: char| ascii_wordy(c)));
        }
    }
    wordy
}

/// Cuts a text at the characters that are not marked as part of a word.
pub fn split_at_marks(chars: &Vec<char>, wordy: &Vec<bool>) -> (pieces: Vec<String>)
    requires
        wordy@.len() == chars@.len(),
    ensures
        views(pieces@) == split_marked(chars@, wordy@),
{
    let mut pieces: Vec<String> = Vec::new();
    let mut piece = String::new();
    let mut i: usize = 0;
    assert(views(pieces@).push(piece@) =~= split_marked(chars@.take(0), wordy@));
    while i < chars.len()
        invariant
            wordy@.len() == chars@.len(),
            i <= chars@.len(),
            views(pieces@).push(piece@) == split_marked(chars@.take(i as int), wordy@),
        decreases chars@.len() - i,
    {
        let ghost done = split_marked(chars@.take(i as int), wordy@);
        let ghost next = chars@.take(i + 1);
        assert(next.drop_last() =~= chars@.take(i as int));
        assert(done.drop_last() =~= views(pieces@));
        if wordy[i] {
            piece.push(chars[i]);
            assert(views(pieces@).push(piece@) =~= split_marked(next, wordy@));
        } else {
            pieces.push(piece);
            piece = String::new();
            assert(views(pieces@) =~= done);
            assert(views(pieces@).push(piece@) =~= split_marked(next, wordy@));
        }
        i += 1;
    }
    assert(chars@.take(i as int) =~= chars@);
    let ghost before = pieces@;
    pieces.push(piece);
    assert(views(pieces@) =~= views(before).push(piece@));
    pieces
}

/// Puts every piece in lower case.
fn lower_all(pieces: &Vec<String>) -> (lowered: Vec<String>)
    ensures
        views(lowered@) == views(pieces@).map_values(|piece: Seq<char>| lowercase(piece)),
        (forall|i: int| 0 <= i < pieces@.len() ==> all_ascii(#[trigger] pieces@[i]@)) ==> views(
            lowered@,
        ) == views(pieces@).map_values(
            |piece: Seq<char>| piece.map_values(|c: char| ascii_lower(c)),
        ),
{
    let mut lowered: Vec<String> = Vec::new();
    let mut i: usize = 0;
    while i < pieces.len()
        invariant
            i <= pieces@.len(),
            lowered@.len() == i,
            forall|j: int| 0 <= j < i ==> (#[trigger] lowered@[j])@ == lowercase(pieces@[j]@),
            forall|j: int|
                0 <= j < i && all_ascii(pieces@[j]@) ==> (#[trigger] lowered@[j])@
                    == pieces@[j]@.map_values(|c: char| ascii_lower(c)),
        decreases pieces@.len() - i,
    {
        lowered.push(pieces[i].as_str().to_lowercase());
        i += 1;
    }
    let ghost all = views(pieces@);
    assert(views(lowered@) =~= all.map_values(|piece: Seq<char>| lowercase(piece)));
    proof {
        if forall|j: int| 0 <= j < pieces@.len() ==> all_ascii(#[trigger] pieces@[j]@) {
            assert forall|j: int| 0 <= j < pieces@.len() implies (#[trigger] lowered@[j])@
                == pieces@[j]@.map_values(|c: char| ascii_lower(c)) by {
                assert(all_ascii(pieces@[j]@));
            }
            assert(views(lowered@) =~= all.map_values(
                |piece: Seq<char>| piece.map_values(|c: char| ascii_lower(c)),
            ));
        }
    }
    lowered
}

/// Keeps the words that carry content.
pub fn keep_content(words: &Vec<String>) -> (content: Vec<String>)
    ensures
        views(content@) == kept(views(words@)),
{
    let stop = stopwords();
    let mut content: Vec<String> = Vec::new();
    let mut i: usize = 0;
    proof {
        reveal(Seq::filter);
        assert(views(content@) =~= kept(views(words@).take(0)));
    }
    while i < words.len()
        invariant
            stop@ == STOP_WORDS@,
            i <= words@.len(),
            views(content@) == kept(views(words@).take(i as int)),
        decreases words@.len() - i,
    {
        let ghost next = views(words@).take(i + 1);
        proof {
            reveal(Seq::filter);
            assert(next.drop_last() =~= views(words@).take(i as int));
            assert(next.last() == words@[i as int]@);
        }
        let word = words[i].as_str();
        if byte_len(word) > 1 && !stops(&stop, word) {
            let ghost before = content@;
            content.push(word.to_owned());
            assert(views(content@) =~= views(before).push(word@));
        }
        i += 1;
    }
    assert(views(words@).take(i as int) =~= views(words@));
    content
}

/// The pieces of an ASCII text are ASCII.
proof fn lemma_pieces_stay_ascii(text: Seq<char>, wordy: Seq<bool>)
    requires
        all_ascii(text),
    ensures
        split_marked(text, wordy).len() > 0,
        forall|i: int|
            0 <= i < split_marked(text, wordy).len() ==> all_ascii(
                #[trigger] split_marked(text, wordy)[i],
            ),
    decreases text.len(),
{
    if text.len() > 0 {
        lemma_pieces_stay_ascii(text.drop_last(), wordy);
        let before = split_marked(text.drop_last(), wordy);
        let all = split_marked(text, wordy);
        assert(is_ascii(text[text.len() - 1]));
        assert(all_ascii(before[before.len() - 1]));
        assert forall|i: int| 0 <= i < all.len() implies all_ascii(#[trigger] all[i]) by {
            if i < before.len() - 1 {
                assert(all[i] == before[i]);
            } else if i < before.len() && !wordy[text.len() - 1] {
                assert(all[i] == before[i]);
            }
        }
    }
}

/// The content words of a text, in lower case and in order.
pub fn tokenize(text: &str) -> (words: Vec<String>)
    ensures
        views(words@) == tokens(text@),
        all_ascii(text@) ==> views(words@) == ascii_tokens(text@),
{
    let chars = chars_of(text);
    let wordy = mark_words(&chars);
    let pieces = split_at_marks(&chars, &wordy);
    let lowered = lower_all(&pieces);
    proof {
        if all_ascii(text@) {
            lemma_pieces_stay_ascii(text@, wordy@);
            assert forall|i: int| 0 <= i < pieces@.len() implies all_ascii(
                #[trigger] pieces@[i]@,
            ) by {
                assert(views(pieces@)[i] == pieces@[i]@);
            }
        }
    }
    keep_content(&lowered)
}

/// No word that is reported is a stop word or shorter than two bytes.
pub proof fn law_tokens_carry_content(text: Seq<char>)
    ensures
        forall|i: int| 0 <= i < tokens(text).len() ==> is_content_word(#[trigger] tokens(text)[i]),
{
    broadcast use vstd::seq_lib::group_filter_ensures;

    let lowered = pieces(text).map_values(|piece: Seq<char>| lowercase(piece));
    let content = |word: Seq<char>| is_content_word(word);
    assert forall|i: int| 0 <= i < tokens(text).len() implies is_content_word(
        #[trigger] tokens(text)[i],
    ) by {
        assert(content(lowered.filter(content)[i]));
    }
}

/// Only the marks of a text's own characters matter.
proof fn lemma_other_marks_do_not_matter(text: Seq<char>, a: Seq<bool>, b: Seq<bool>)
    requires
        forall|i: int| 0 <= i < text.len() ==> #[trigger] a[i] == b[i],
    ensures
        split_marked(text, a) == split_marked(text, b),
    decreases text.len(),
{
    if text.len() > 0 {
        lemma_other_marks_do_not_matter(text.drop_last(), a, b);
        assert(a[text.len() - 1] == b[text.len() - 1]);
    }
}

/// The pieces of a text without its last character.
proof fn lemma_pieces_step(text: Seq<char>)
    requires
        text.len() > 0,
    ensures
        pieces(text) == if alphanumeric(text.last()) {
            pieces(text.drop_last()).drop_last().push(
                pieces(text.drop_last()).last().push(text.last()),
            )
        } else {
            pieces(text.drop_last()).push(Seq::empty())
        },
        pieces(text.drop_last()).len() > 0,
    decreases text.len(),
{
    let marks = |c: char| alphanumeric(c);
    lemma_other_marks_do_not_matter(
        text.drop_last(),
        text.map_values(marks),
        text.drop_last().map_values(marks),
    );
    if text.len() > 1 {
        lemma_pieces_step(text.drop_last());
    }
}

/// The pieces of two texts with a separator between them are those of both.
proof fn lemma_pieces_split_at_separator(a: Seq<char>, separator: char, b: Seq<char>)
    requires
        !alphanumeric(separator),
    ensures
        pieces(a.push(separator) + b) == pieces(a) + pieces(b),
        pieces(b).len() > 0,
    decreases b.len(),
{
    let all = a.push(separator) + b;
    lemma_pieces_step(all);
    if b.len() == 0 {
        assert(all =~= a.push(separator));
        assert(all.drop_last() =~= a);
        assert(pieces(all) =~= pieces(a) + pieces(b));
    } else {
        let fewer = b.drop_last();
        lemma_pieces_split_at_separator(a, separator, fewer);
        lemma_pieces_step(b);
        assert(all.drop_last() =~= a.push(separator) + fewer);
        assert(all.last() == b.last());
        assert((pieces(a) + pieces(fewer)).last() == pieces(fewer).last());
        assert(pieces(all) =~= pieces(a) + pieces(b));
    }
}

/// A word never reaches across a separator: the words of two texts with a
/// separator between them are the words of the one and then those of the other.
pub proof fn law_words_end_at_separators(a: Seq<char>, separator: char, b: Seq<char>)
    requires
        !alphanumeric(separator),
    ensures
        tokens(a.push(separator) + b) == tokens(a) + tokens(b),
{
    lemma_pieces_split_at_separator(a, separator, b);
    let lower = |piece: Seq<char>| lowercase(piece);
    let content = |word: Seq<char>| is_content_word(word);
    assert((pieces(a) + pieces(b)).map_values(lower) =~= pieces(a).map_values(lower) + pieces(
        b,
    ).map_values(lower));
    Seq::filter_distributes_over_add(
        pieces(a).map_values(lower),
        pieces(b).map_values(lower),
        content,
    );
}

} // verus!
