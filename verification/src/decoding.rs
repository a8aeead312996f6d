//! Bytes that arrive in chunks, decoded so that a character cut in two by a chunk
//! boundary comes out whole.

use crate::text::{lossy_text, utf8_lossy};
use vstd::prelude::*;
use vstd::utf8::{
    decode_utf8, decode_utf8_split, is_char_boundary,
    is_char_boundary_iff_not_is_continuation_byte, is_char_boundary_start_end_of_seq,
    is_continuation_byte, length_of_first_scalar, pop_first_scalar, valid_utf8, valid_utf8_split,
};

verus! {

/// How many bytes a character has that begins with this byte; zero if none does.
pub open spec fn lead_width(byte: u8) -> nat {
    if byte <= 0x7f {
        1
    } else if 0xc0 <= byte <= 0xdf {
        2
    } else if 0xe0 <= byte <= 0xef {
        3
    } else if 0xf0 <= byte <= 0xf7 {
        4
    } else {
        0
    }
}

/// Are the last `n` bytes the beginning of a character that is not complete?
pub open spec fn is_cut(bytes: Seq<u8>, n: int) -> bool {
    &&& 1 <= n <= 3
    &&& n <= bytes.len()
    &&& lead_width(bytes[bytes.len() - n]) > n
    &&& forall|i: int|
        bytes.len() - n < i < bytes.len() ==> is_continuation_byte(#[trigger] bytes[i])
}

/// How many bytes at the end are the beginning of a character that is not
/// complete.
pub open spec fn open_tail(bytes: Seq<u8>) -> int {
    if is_cut(bytes, 1) {
        1
    } else if is_cut(bytes, 2) {
        2
    } else if is_cut(bytes, 3) {
        3
    } else {
        0
    }
}

/// The bytes up to the character that is not complete.
pub open spec fn whole_part(bytes: Seq<u8>) -> Seq<u8> {
    bytes.take(bytes.len() - open_tail(bytes))
}

/// The bytes of the character that is not complete.
pub open spec fn cut_part(bytes: Seq<u8>) -> Seq<u8> {
    bytes.skip(bytes.len() - open_tail(bytes))
}

/// The text of some bytes, without loss where they are UTF-8.
pub open spec fn decoded(bytes: Seq<u8>) -> Seq<char> {
    if valid_utf8(bytes) {
        decode_utf8(bytes)
    } else {
        utf8_lossy(bytes)
    }
}

/// The text of chunks that arrive one after the other behind a beginning of a
/// character, and the bytes that are left over.
pub open spec fn decoded_chunks(tail: Seq<u8>, chunks: Seq<Seq<u8>>) -> (Seq<char>, Seq<u8>)
    decreases chunks.len(),
{
    if chunks.len() == 0 {
        (Seq::empty(), tail)
    } else {
        let all = tail + chunks[0];
        let (rest, last) = decoded_chunks(cut_part(all), chunks.drop_first());
        (decoded(whole_part(all)) + rest, last)
    }
}

/// How many bytes a character has that begins with this byte.
fn width_of(byte: u8) -> (n: usize)
    ensures
        n == lead_width(byte),
{
    if byte <= 0x7f {
        1
    } else if byte < 0xc0 {
        0
    } else if byte <= 0xdf {
        2
    } else if byte <= 0xef {
        3
    } else if byte <= 0xf7 {
        4
    } else {
        0
    }
}

/// Are the last `n` bytes the beginning of a character that is not complete?
fn cut_at(bytes: &Vec<u8>, n: usize) -> (b: bool)
    requires
        1 <= n <= 3,
    ensures
        b == is_cut(bytes@, n as int),
{
    if bytes.len() < n {
        return false;
    }
    let start: usize = bytes.len() - n;
    if width_of(bytes[start]) <= n {
        return false;
    }
    let mut i: usize = start + 1;
    while i < bytes.len()
        invariant
            start < i <= bytes@.len(),
            start == bytes@.len() - n,
            1 <= n <= 3,
            lead_width(bytes@[start as int]) > n,
            forall|j: int| start < j < i ==> is_continuation_byte(#[trigger] bytes@[j]),
        decreases bytes@.len() - i,
    {
        if bytes[i] < 0x80 || bytes[i] > 0xbf {
            assert(!is_continuation_byte(bytes@[i as int]));
            return false;
        }
        i += 1;
    }
    true
}

/// Takes in a chunk of bytes behind those left over, and returns the text of all
/// characters that are complete. What is left over then is the beginning of a
/// character, or nothing.
pub fn decode_chunk(tail: &mut Vec<u8>, chunk: &[u8]) -> (text: String)
    ensures
        text@ == decoded(whole_part(old(tail)@ + chunk@)),
        final(tail)@ == cut_part(old(tail)@ + chunk@),
{
    let ghost before = tail@;
    let mut all: Vec<u8> = Vec::new();
    all.append(tail);
    let mut i: usize = 0;
    assert(chunk@.take(0) =~= Seq::empty());
    assert(all@ =~= before + chunk@.take(0));
    while i < chunk.len()
        invariant
            i <= chunk@.len(),
            all@ == before + chunk@.take(i as int),
        decreases chunk@.len() - i,
    {
        all.push(chunk[i]);
        i += 1;
        assert(all@ =~= before + chunk@.take(i as int));
    }
    assert(chunk@.take(i as int) =~= chunk@);
    let n: usize = if cut_at(&all, 1) {
        1
    } else if cut_at(&all, 2) {
        2
    } else if cut_at(&all, 3) {
        3
    } else {
        0
    };
    let ghost joined = all@;
    let at: usize = all.len() - n;
    *tail = all.split_off(at);
    assert(tail@ =~= cut_part(joined));
    assert(all@ =~= whole_part(joined));
    lossy_text(all.as_slice())
}

/// The text of some bytes.
pub fn decode(bytes: &[u8]) -> (text: String)
    ensures
        text@ == decoded(bytes@),
{
    lossy_text(bytes)
}

/// A continuation byte stands a little behind the first byte of its character.
proof fn lemma_continuation_has_a_lead(bytes: Seq<u8>, p: int)
    requires
        valid_utf8(bytes),
        0 <= p < bytes.len(),
        is_continuation_byte(bytes[p]),
    ensures
        exists|n: int|
            1 <= n <= 3 && n <= p && lead_width(#[trigger] bytes[p - n]) > n && (forall|i: int|
                p - n < i < p ==> is_continuation_byte(#[trigger] bytes[i])),
    decreases bytes.len(),
{
    let width = length_of_first_scalar(bytes);
    if p < width {
        assert(lead_width(bytes[p - p]) > p);
    } else {
        let rest = pop_first_scalar(bytes);
        let q = p - width;
        assert(rest[q] == bytes[p]);
        lemma_continuation_has_a_lead(rest, q);
        let n = choose|n: int|
            1 <= n <= 3 && n <= q && lead_width(#[trigger] rest[q - n]) > n && (forall|i: int|
                q - n < i < q ==> is_continuation_byte(#[trigger] rest[i]));
        assert(bytes[p - n] == rest[q - n]);
        assert forall|i: int| p - n < i < p implies is_continuation_byte(#[trigger] bytes[i]) by {
            assert(bytes[i] == rest[i - width]);
        }
    }
}

/// Where bytes are cut in two, the whole part of the first ends at a character
/// boundary of all.
proof fn lemma_whole_part_ends_at_a_boundary(first: Seq<u8>, rest: Seq<u8>)
    requires
        valid_utf8(first + rest),
    ensures
        is_char_boundary(first + rest, first.len() - open_tail(first)),
{
    let all = first + rest;
    let n = open_tail(first);
    let k = first.len() - n;
    if n > 0 {
        assert(all[k] == first[k]);
        is_char_boundary_iff_not_is_continuation_byte(all, k);
    } else if rest.len() == 0 {
        is_char_boundary_start_end_of_seq(all);
    } else {
        if is_continuation_byte(all[k]) {
            lemma_continuation_has_a_lead(all, k);
            let m = choose|m: int|
                1 <= m <= 3 && m <= k && lead_width(#[trigger] all[k - m]) > m && (forall|i: int|
                    k - m < i < k ==> is_continuation_byte(#[trigger] all[i]));
            assert(first[k - m] == all[k - m]);
            assert forall|i: int| k - m < i < k implies is_continuation_byte(#[trigger] first[i]) by {
                assert(all[i] == first[i]);
            }
            assert(is_cut(first, m));
        }
        is_char_boundary_iff_not_is_continuation_byte(all, k);
    }
}

/// Whatever the chunks that bytes arrive in, no character is lost or damaged: if
/// all the bytes together are UTF-8, the texts of the chunks, joined, are what the
/// bytes stand for, and nothing is left over.
pub proof fn law_characters_survive_chunks(tail: Seq<u8>, chunks: Seq<Seq<u8>>)
    requires
        valid_utf8(tail + chunks.flatten()),
        open_tail(tail) == tail.len(),
    ensures
        decoded_chunks(tail, chunks).0 == decode_utf8(tail + chunks.flatten()),
        decoded_chunks(tail, chunks).1.len() == 0,
    decreases chunks.len(),
{
    if chunks.len() == 0 {
        assert(tail + chunks.flatten() =~= tail);
        if tail.len() > 0 {
            lemma_valid_is_not_cut(tail);
        }
    } else {
        let all = tail + chunks[0];
        let rest = chunks.drop_first();
        let joined = tail + chunks.flatten();
        assert(joined =~= all + rest.flatten());
        let k = all.len() - open_tail(all);
        lemma_whole_part_ends_at_a_boundary(all, rest.flatten());
        valid_utf8_split(joined, k);
        decode_utf8_split(joined, k);
        assert(joined.subrange(0, k) =~= whole_part(all));
        assert(joined.subrange(k, joined.len() as int) =~= cut_part(all) + rest.flatten());
        lemma_cut_part_is_cut(all);
        law_characters_survive_chunks(cut_part(all), rest);
    }
}

/// What is left over is the beginning of a character, and nothing else.
proof fn lemma_cut_part_is_cut(bytes: Seq<u8>)
    ensures
        open_tail(cut_part(bytes)) == cut_part(bytes).len(),
{
    let n = open_tail(bytes);
    let part = cut_part(bytes);
    if n > 0 {
        assert(part[0] == bytes[bytes.len() - n]);
        assert forall|i: int| 0 < i < part.len() implies is_continuation_byte(#[trigger] part[i]) by {
            assert(part[i] == bytes[bytes.len() - n + i]);
        }
        assert(is_cut(part, n));
        if n >= 2 {
            assert(is_continuation_byte(part[n - 1]));
        }
        if n == 3 {
            assert(is_continuation_byte(part[1]));
        }
    }
}

/// UTF-8 does not end in the beginning of a character.
proof fn lemma_valid_is_not_cut(bytes: Seq<u8>)
    requires
        valid_utf8(bytes),
    ensures
        open_tail(bytes) == 0,
    decreases bytes.len(),
{
    if bytes.len() > 0 {
        let width = length_of_first_scalar(bytes);
        let rest = pop_first_scalar(bytes);
        lemma_valid_is_not_cut(rest);
        assert forall|n: int| 1 <= n <= 3 implies !is_cut(bytes, n) by {
            if is_cut(bytes, n) {
                let k = bytes.len() - n;
                if k >= width {
                    assert(rest[k - width] == bytes[k]);
                    assert forall|i: int|
                        rest.len() - n < i < rest.len() implies is_continuation_byte(
                        #[trigger] rest[i],
                    ) by {
                        assert(rest[i] == bytes[i + width]);
                    }
                    assert(is_cut(rest, n));
                } else if k > 0 {
                    assert(is_continuation_byte(bytes[k]));
                } else if rest.len() > 0 {
                    is_char_boundary_start_end_of_seq(rest);
                    is_char_boundary_iff_not_is_continuation_byte(rest, 0);
                    assert(rest[0] == bytes[width]);
                }
            }
        }
    }
}

/// Of the bytes that have arrived none is lost: they are taken in, or held back at the end.
/// What is held back is fewer bytes than the character has that the first of them begins.
/// Bytes that are no UTF-8 are taken in as the lossy text that they stand for.
pub proof fn law_no_byte_is_lost(bytes: Seq<u8>)
    ensures
        whole_part(bytes) + cut_part(bytes) == bytes,
        cut_part(bytes).len() > 0 ==> {
            let first = cut_part(bytes)[0];
            &&& 0xc0 <= first <= 0xf7
            &&& first <= 0xdf ==> cut_part(bytes).len() == 1
            &&& first <= 0xef ==> cut_part(bytes).len() <= 2
            &&& cut_part(bytes).len() <= 3
            &&& forall|i: int|
                0 < i < cut_part(bytes).len() ==> is_continuation_byte(
                    #[trigger] cut_part(bytes)[i],
                )
        },
        !valid_utf8(bytes) ==> decoded(bytes) == utf8_lossy(bytes),
        valid_utf8(bytes) ==> decoded(bytes) == decode_utf8(bytes),
{
    let n = open_tail(bytes);
    assert(whole_part(bytes) + cut_part(bytes) =~= bytes);
    if n > 0 {
        assert(is_cut(bytes, n));
        assert(cut_part(bytes)[0] == bytes[bytes.len() - n]);
        assert forall|i: int| 0 < i < cut_part(bytes).len() implies is_continuation_byte(
            #[trigger] cut_part(bytes)[i],
        ) by {
            assert(cut_part(bytes)[i] == bytes[bytes.len() - n + i]);
        }
    }
}

/// The beginning of a character is held back, whatever stands in front of it.
pub proof fn law_beginnings_are_held_back(front: Seq<u8>, part: Seq<u8>)
    requires
        0 < part.len(),
        0xc0 <= part[0] <= 0xf7,
        part[0] <= 0xdf ==> part.len() < 2,
        part[0] <= 0xef ==> part.len() < 3,
        part.len() < 4,
        forall|i: int| 0 < i < part.len() ==> is_continuation_byte(#[trigger] part[i]),
    ensures
        cut_part(front + part) == part,
        whole_part(front + part) == front,
{
    let bytes = front + part;
    let n = part.len() as int;
    assert(bytes[bytes.len() - n] == part[0]);
    assert forall|i: int| bytes.len() - n < i < bytes.len() implies is_continuation_byte(
        #[trigger] bytes[i],
    ) by {
        assert(bytes[i] == part[i - front.len()]);
    }
    assert(is_cut(bytes, n));
    if n >= 2 {
        assert(bytes[bytes.len() - 1] == part[n - 1]);
        assert(is_continuation_byte(part[n - 1]));
        assert(lead_width(part[n - 1]) == 0);
    }
    if n >= 3 {
        assert(bytes[bytes.len() - 2] == part[n - 2]);
        assert(is_continuation_byte(part[n - 2]));
        assert(lead_width(part[n - 2]) == 0);
    }
    assert(open_tail(bytes) == n);
    assert(cut_part(bytes) =~= part);
    assert(whole_part(bytes) =~= front);
}

/// Chunks that arrive in two runs are decoded as the first run, and then the second behind
/// what the first left over.
pub proof fn law_runs_of_chunks_are_decoded_in_order(
    tail: Seq<u8>,
    first: Seq<Seq<u8>>,
    second: Seq<Seq<u8>>,
)
    ensures
        ({
            let (text, rest) = decoded_chunks(tail, first);
            &&& decoded_chunks(tail, first + second).0 == text + decoded_chunks(rest, second).0
            &&& decoded_chunks(tail, first + second).1 == decoded_chunks(rest, second).1
        }),
    decreases first.len(),
{
    if first.len() == 0 {
        assert(first + second =~= second);
        assert(Seq::<char>::empty() + decoded_chunks(tail, second).0 =~= decoded_chunks(
            tail,
            second,
        ).0);
    } else {
        let all = tail + first[0];
        law_runs_of_chunks_are_decoded_in_order(cut_part(all), first.drop_first(), second);
        assert((first + second).drop_first() =~= first.drop_first() + second);
        assert(decoded_chunks(tail, first + second).0 =~= decoded_chunks(tail, first).0
            + decoded_chunks(decoded_chunks(tail, first).1, second).0);
    }
}

} // verus!
