//! Strings as sequences of characters: comparison, slicing, joining, decimal
//! rendering and decoding of raw bytes.

use vstd::prelude::*;
use vstd::string::StringExecFns;
use vstd::utf8::{
    decode_utf8, decode_utf8_split, encode_utf8, encode_utf8_decode_utf8, encode_utf8_valid_utf8,
    is_char_boundary, is_char_boundary_iff_not_is_continuation_byte,
    is_char_boundary_start_end_of_seq, valid_utf8, valid_utf8_concat, valid_utf8_split,
};

verus! {

/// `String::push` appends one character to the end of the string.
pub assume_specification[ String::push ](string: &mut String, ch: char)
    ensures
        final(string)@ == old(string)@.push(ch),
;

/// What `String::from_utf8_lossy` makes of a byte sequence.
pub uninterp spec fn utf8_lossy(bytes: Seq<u8>) -> Seq<char>;

/// `String::from_utf8_lossy`: the result depends on the bytes alone, and bytes
/// that are valid UTF-8 are decoded without loss. How invalid bytes are
/// replaced is left to the name.
#[verifier::external_body]
pub(crate) fn lossy_text(bytes: &[u8]) -> (text: String)
    ensures
        text@ == utf8_lossy(bytes@),
        valid_utf8(bytes@) ==> text@ == decode_utf8(bytes@),
{
    String::from_utf8_lossy(bytes).into_owned()
}

/// Two strings are equal exactly when they hold the same characters.
pub fn str_eq(a: &str, b: &str) -> (same: bool)
    ensures
        same == (a@ == b@),
{
    let x = a.as_bytes();
    let y = b.as_bytes();
    proof {
        encode_utf8_decode_utf8(a@);
        encode_utf8_decode_utf8(b@);
    }
    if x.len() != y.len() {
        return false;
    }
    let mut i: usize = 0;
    while i < x.len()
        invariant
            x@ == encode_utf8(a@),
            y@ == encode_utf8(b@),
            x@.len() == y@.len(),
            i <= x@.len(),
            x@.take(i as int) == y@.take(i as int),
        decreases x@.len() - i,
    {
        if x[i] != y[i] {
            assert(x@[i as int] != y@[i as int]);
            return false;
        }
        assert(x@.take(i + 1) == x@.take(i as int).push(x@[i as int]));
        assert(y@.take(i + 1) == y@.take(i as int).push(y@[i as int]));
        i += 1;
    }
    assert(x@.take(i as int) == x@);
    assert(y@.take(i as int) == y@);
    true
}

/// The number of bytes of a string.
pub fn byte_len(s: &str) -> (n: usize)
    ensures
        n == encode_utf8(s@).len(),
{
    s.as_bytes().len()
}

/// The number of characters of a string.
pub fn char_len(s: &str) -> (n: usize)
    ensures
        n == s@.len(),
{
    chars_of(s).len()
}

/// The characters of a string, in order.
pub fn chars_of(s: &str) -> (chars: Vec<char>)
    ensures
        chars@ == s@,
{
    let mut chars: Vec<char> = Vec::new();
    for c in it: s.chars()
        invariant
            it.seq() == s@,
            chars@ == it.seq().take(it.index() as int),
    {
        chars.push(c);
    }
    chars
}

/// The string that holds the characters `from..to` of `chars`.
pub fn string_of(chars: &Vec<char>, from: usize, to: usize) -> (s: String)
    requires
        from <= to <= chars@.len(),
    ensures
        s@ == chars@.subrange(from as int, to as int),
{
    let mut s = String::new();
    let mut i: usize = from;
    while i < to
        invariant
            from <= i <= to <= chars@.len(),
            s@ == chars@.subrange(from as int, i as int),
        decreases to - i,
    {
        s.push(chars[i]);
        i += 1;
    }
    s
}

/// The views of a list of strings.
pub open spec fn views(strings: Seq<String>) -> Seq<Seq<char>> {
    strings.map_values(|s: String| s@)
}

/// The strings of a list, one after the other, with `sep` between neighbours.
pub open spec fn joined(parts: Seq<Seq<char>>, sep: Seq<char>) -> Seq<char>
    decreases parts.len(),
{
    if parts.len() == 0 {
        Seq::empty()
    } else if parts.len() == 1 {
        parts[0]
    } else {
        joined(parts.drop_last(), sep) + sep + parts.last()
    }
}

/// Joins a list of strings with `sep` between neighbours.
pub fn join(parts: &Vec<String>, sep: &str) -> (s: String)
    ensures
        s@ == joined(views(parts@), sep@),
{
    let mut s = String::new();
    let mut i: usize = 0;
    while i < parts.len()
        invariant
            i <= parts@.len(),
            s@ == joined(views(parts@).take(i as int), sep@),
        decreases parts@.len() - i,
    {
        if i > 0 {
            s.append(sep);
        }
        s.append(parts[i].as_str());
        proof {
            let next = views(parts@).take(i + 1);
            assert(next.drop_last() =~= views(parts@).take(i as int));
            assert(next.last() == parts@[i as int]@);
        }
        i += 1;
    }
    assert(views(parts@).take(i as int) =~= views(parts@));
    s
}

/// The decimal digits of a number, most significant first.
pub open spec fn decimal(n: nat) -> Seq<char>
    decreases n,
{
    if n < 10 {
        seq![digit(n)]
    } else {
        decimal(n / 10).push(digit(n % 10))
    }
}

/// The character of one decimal digit.
pub open spec fn digit(d: nat) -> char {
    (48 + d) as char
}

/// Renders a number in decimal.
pub fn decimal_text(n: u64) -> (s: String)
    ensures
        s@ == decimal(n as nat),
    decreases n,
{
    let d: u8 = (n % 10) as u8;
    let c: char = (48 + d) as char;
    if n < 10 {
        let mut s = String::new();
        s.push(c);
        assert(s@ =~= seq![digit(n as nat)]);
        s
    } else {
        let mut s = decimal_text(n / 10);
        s.push(c);
        s
    }
}

/// The characters of a text whose encoding stands at the bytes `from..to`.
pub open spec fn between(text: Seq<char>, from: int, to: int) -> Seq<char> {
    decode_utf8(encode_utf8(text).subrange(from, to))
}

/// Is the byte offset the start of a character, or the end of the text?
pub open spec fn on_boundary(text: Seq<char>, offset: int) -> bool {
    0 <= offset <= encode_utf8(text).len() && is_char_boundary(encode_utf8(text), offset)
}

/// The encoding of a concatenation is the concatenation of the encodings.
pub proof fn lemma_encode_concat(a: Seq<char>, b: Seq<char>)
    ensures
        encode_utf8(a + b) == encode_utf8(a) + encode_utf8(b),
    decreases a.len(),
{
    if a.len() == 0 {
        assert(a + b =~= b);
        assert(encode_utf8(a) + encode_utf8(b) =~= encode_utf8(b));
    } else {
        lemma_encode_concat(a.drop_first(), b);
        assert((a + b).drop_first() =~= a.drop_first() + b);
        assert(encode_utf8(a + b) =~= encode_utf8(a) + encode_utf8(b));
    }
}

/// A boundary of valid bytes stays one when valid bytes are appended.
proof fn lemma_boundary_of_concat(x: Seq<u8>, y: Seq<u8>, offset: int)
    requires
        valid_utf8(x),
        valid_utf8(y),
        0 <= offset <= x.len(),
        is_char_boundary(x, offset),
    ensures
        is_char_boundary(x + y, offset),
{
    valid_utf8_concat(x, y);
    if offset < x.len() {
        is_char_boundary_iff_not_is_continuation_byte(x, offset);
        is_char_boundary_iff_not_is_continuation_byte(x + y, offset);
    } else if y.len() > 0 {
        is_char_boundary_start_end_of_seq(y);
        is_char_boundary_iff_not_is_continuation_byte(y, 0);
        is_char_boundary_iff_not_is_continuation_byte(x + y, offset);
    } else {
        assert(x + y =~= x);
    }
}

/// A boundary of a text stays one when text is appended.
pub proof fn lemma_boundary_survives_append(text: Seq<char>, more: Seq<char>, offset: int)
    requires
        on_boundary(text, offset),
    ensures
        on_boundary(text + more, offset),
{
    lemma_encode_concat(text, more);
    encode_utf8_valid_utf8(text);
    encode_utf8_valid_utf8(more);
    lemma_boundary_of_concat(encode_utf8(text), encode_utf8(more), offset);
}

/// The start and the end of a text are boundaries.
pub proof fn lemma_ends_are_boundaries(text: Seq<char>)
    ensures
        on_boundary(text, 0),
        on_boundary(text, encode_utf8(text).len() as int),
{
    encode_utf8_valid_utf8(text);
    is_char_boundary_start_end_of_seq(encode_utf8(text));
}

/// What stands in front of a boundary has the boundaries of the whole.
proof fn lemma_boundary_of_prefix(bytes: Seq<u8>, from: int, to: int)
    requires
        valid_utf8(bytes),
        0 <= from <= to <= bytes.len(),
        is_char_boundary(bytes, from),
        is_char_boundary(bytes, to),
    ensures
        valid_utf8(bytes.subrange(0, to)),
        is_char_boundary(bytes.subrange(0, to), from),
{
    let head = bytes.subrange(0, to);
    valid_utf8_split(bytes, to);
    if from < to {
        is_char_boundary_iff_not_is_continuation_byte(bytes, from);
        is_char_boundary_iff_not_is_continuation_byte(head, from);
    } else {
        is_char_boundary_start_end_of_seq(head);
    }
}

/// Neighbouring ranges of a text join to the range over both.
pub proof fn lemma_between_joins(text: Seq<char>, a: int, b: int, c: int)
    requires
        a <= b <= c,
        on_boundary(text, a),
        on_boundary(text, b),
        on_boundary(text, c),
    ensures
        between(text, a, b) + between(text, b, c) == between(text, a, c),
{
    let bytes = encode_utf8(text);
    encode_utf8_valid_utf8(text);
    lemma_boundary_of_prefix(bytes, a, c);
    lemma_boundary_of_prefix(bytes, b, c);
    let head = bytes.subrange(0, c);
    valid_utf8_split(head, a);
    let rest = head.subrange(a, c);
    assert(rest =~= bytes.subrange(a, c));
    assert(is_char_boundary(rest, b - a)) by {
        if b < c {
            is_char_boundary_iff_not_is_continuation_byte(head, b);
            is_char_boundary_iff_not_is_continuation_byte(rest, b - a);
        } else {
            is_char_boundary_start_end_of_seq(rest);
        }
    }
    decode_utf8_split(rest, b - a);
    assert(rest.subrange(0, b - a) =~= bytes.subrange(a, b));
    assert(rest.subrange(b - a, rest.len() as int) =~= bytes.subrange(b, c));
}

/// A range of a text is as it was when text is appended.
pub proof fn lemma_between_survives_append(text: Seq<char>, more: Seq<char>, from: int, to: int)
    requires
        0 <= from <= to <= encode_utf8(text).len(),
    ensures
        between(text + more, from, to) == between(text, from, to),
{
    lemma_encode_concat(text, more);
    assert(encode_utf8(text + more).subrange(from, to) =~= encode_utf8(text).subrange(from, to));
}

/// The range of a text over all of its bytes is the text.
pub proof fn lemma_between_whole(text: Seq<char>)
    ensures
        between(text, 0, encode_utf8(text).len() as int) == text,
{
    let bytes = encode_utf8(text);
    assert(bytes.subrange(0, bytes.len() as int) =~= bytes);
    encode_utf8_decode_utf8(text);
}

/// The part of a string at the bytes `from..to`.
pub fn slice_between(s: &str, from: usize, to: usize) -> (part: &str)
    requires
        from <= to,
        on_boundary(s@, from as int),
        on_boundary(s@, to as int),
    ensures
        part@ == between(s@, from as int, to as int),
{
    proof {
        encode_utf8_valid_utf8(s@);
        lemma_boundary_of_prefix(encode_utf8(s@), from as int, to as int);
    }
    let head = s.split_at(to).0;
    let part = head.split_at(from).1;
    proof {
        encode_utf8_decode_utf8(part@);
        assert(encode_utf8(part@) =~= encode_utf8(s@).subrange(from as int, to as int));
    }
    part
}

/// Joining goes through the parts in order, with the separator between every two and
/// nowhere else: one part stays as it is, and two runs of parts are joined by what joins
/// their last and first. No part is left out, be it empty.
pub proof fn law_joining_keeps_every_part(
    part: Seq<char>,
    first: Seq<Seq<char>>,
    second: Seq<Seq<char>>,
    sep: Seq<char>,
)
    requires
        first.len() > 0,
        second.len() > 0,
    ensures
        joined(Seq::empty(), sep) == Seq::<char>::empty(),
        joined(seq![part], sep) == part,
        joined(first + second, sep) == joined(first, sep) + sep + joined(second, sep),
    decreases second.len(),
{
    if second.len() == 1 {
        assert((first + second).drop_last() =~= first);
        assert(joined(first + second, sep) =~= joined(first, sep) + sep + joined(second, sep));
    } else {
        law_joining_keeps_every_part(part, first, second.drop_last(), sep);
        assert((first + second).drop_last() =~= first + second.drop_last());
        assert(joined(first + second, sep) =~= joined(first, sep) + sep + joined(second, sep));
    }
}

} // verus!
