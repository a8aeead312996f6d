//! What holds of the steps of a trace and of what is asked about them, said of the
//! text that arrives.

use crate::terms::{
    documents_with, frequencies, lemma_listed_count_is_occurrences, lemma_occurrences_push,
    lemma_vocabulary_is_distinct, lemma_vocabulary_is_what_occurs, listed_count, occurrences,
    query_of, shared_terms, vocabulary, weights, FreqView, SharedView, WeightView,
};
use crate::text::{
    between, lemma_between_joins, lemma_between_whole, lemma_ends_are_boundaries,
};
use crate::tracker::{
    compiled, cut, group_starts, in_order, is_best_match, law_finished_steps_stay,
    law_no_step_is_missed, marker_starts, profiles, queries_from, snippet, TrackerView,
    RESTART_MARKER,
};
use crate::words::{
    alphanumeric, kept, lowercase, pieces, split_marked, tokens, STOP_WORDS, STOP_WORD_COUNT,
};
use vstd::prelude::*;
use vstd::utf8::encode_utf8;

verus! {

/// The number of texts in which a word occurs.
pub open spec fn texts_with(texts: Seq<Seq<char>>, word: Seq<char>) -> nat {
    texts.filter(|text: Seq<char>| tokens(text).contains(word)).len()
}

/// Do the terms stand for the words of `text`, each once, with the number of times
/// that it occurs there and the number of steps that have it?
pub open spec fn weighs_words(terms: Seq<WeightView>, text: Seq<char>, steps: Seq<Seq<char>>) -> bool {
    exists|words: Seq<Seq<char>>|
        {
            &&& #[trigger] words.no_duplicates()
            &&& forall|word: Seq<char>| #[trigger]
                words.contains(word) <==> tokens(text).contains(word)
            &&& terms.len() == words.len()
            &&& forall|i: int|
                0 <= i < words.len() ==> #[trigger] terms[i] == (
                    tokens(text).to_multiset().count(words[i]),
                    texts_with(steps, words[i]),
                )
        }
}

/// Do the terms stand for the words that two texts share, each once, with the number
/// of times that it occurs in either and the number of steps that have it?
pub open spec fn weighs_shared_words(
    shared: Seq<SharedView>,
    new: Seq<char>,
    old: Seq<char>,
    steps: Seq<Seq<char>>,
) -> bool {
    exists|words: Seq<Seq<char>>|
        {
            &&& #[trigger] words.no_duplicates()
            &&& forall|word: Seq<char>| #[trigger]
                words.contains(word) <==> tokens(new).contains(word) && tokens(old).contains(word)
            &&& shared.len() == words.len()
            &&& forall|i: int|
                0 <= i < words.len() ==> #[trigger] shared[i] == (
                    tokens(new).to_multiset().count(words[i]),
                    tokens(old).to_multiset().count(words[i]),
                    texts_with(steps, words[i]),
                )
        }
}

/// How often a word occurs is its count in the multiset of words.
proof fn lemma_occurrences_are_counted(words: Seq<Seq<char>>, word: Seq<char>)
    ensures
        occurrences(words, word) == words.to_multiset().count(word),
    decreases words.len(),
{
    broadcast use vstd::seq_lib::group_to_multiset_ensures;

    if words.len() > 0 {
        let before = words.drop_last();
        lemma_occurrences_are_counted(before, word);
        lemma_occurrences_push(before, words.last(), word);
        assert(before.push(words.last()) =~= words);
    } else {
        reveal(Seq::filter);
        assert(words =~= Seq::empty());
    }
}

/// A word is listed for a step exactly where it occurs there.
proof fn lemma_listed_where_it_occurs(words: Seq<Seq<char>>, word: Seq<char>)
    ensures
        listed_count(frequencies(words), word) is Some <==> words.contains(word),
        words.contains(word) ==> listed_count(frequencies(words), word) == Some(
            words.to_multiset().count(word),
        ),
{
    lemma_listed_count_is_occurrences(words, word);
    lemma_vocabulary_is_what_occurs(words, word);
    lemma_occurrences_are_counted(words, word);
}

/// The steps that list a word are those in which it occurs.
proof fn lemma_documents_are_texts(steps: Seq<Seq<char>>, word: Seq<char>)
    ensures
        documents_with(profiles(steps), word) == texts_with(steps, word),
    decreases steps.len(),
{
    reveal(Seq::filter);
    if steps.len() > 0 {
        lemma_documents_are_texts(steps.drop_last(), word);
        assert(profiles(steps).drop_last() =~= profiles(steps.drop_last()));
        assert(profiles(steps).last() == frequencies(tokens(steps.last())));
        lemma_listed_where_it_occurs(tokens(steps.last()), word);
    }
}

/// Filtering keeps a list free of duplicates, and keeps what passes.
proof fn lemma_filter_lists_once(words: Seq<Seq<char>>, keep: spec_fn(Seq<char>) -> bool)
    requires
        words.no_duplicates(),
    ensures
        words.filter(keep).no_duplicates(),
        forall|word: Seq<char>| #[trigger]
            words.filter(keep).contains(word) <==> words.contains(word) && keep(word),
    decreases words.len(),
{
    reveal(Seq::filter);
    if words.len() > 0 {
        let before = words.drop_last();
        lemma_filter_lists_once(before, keep);
        let all = words.filter(keep);
        let some = before.filter(keep);
        assert(before.push(words.last()) =~= words);
        assert(!before.contains(words.last())) by {
            if before.contains(words.last()) {
                let i = before.index_of(words.last());
                assert(words[i] == words[words.len() - 1]);
            }
        }
        assert forall|word: Seq<char>| #[trigger] all.contains(word) <==> words.contains(word)
            && keep(word) by {
            if all.contains(word) {
                let i = all.index_of(word);
                if i < some.len() {
                    assert(some[i] == word);
                    assert(some.contains(word));
                    let j = before.index_of(word);
                    assert(words[j] == word);
                } else {
                    assert(word == words.last());
                    assert(words[words.len() - 1] == word);
                }
            }
            if words.contains(word) && keep(word) {
                let i = words.index_of(word);
                if i < before.len() {
                    assert(before[i] == word);
                    assert(some.contains(word));
                    let j = some.index_of(word);
                    assert(all[j] == word);
                } else {
                    assert(all[all.len() - 1] == word);
                }
            }
        }
        assert(all.no_duplicates()) by {
            if keep(words.last()) {
                assert(!some.contains(words.last()));
                assert forall|i: int, j: int|
                    0 <= i < all.len() && 0 <= j < all.len() && i != j implies all[i] != all[j] by {
                    if i < some.len() {
                        assert(some.contains(some[i]));
                    }
                    if j < some.len() {
                        assert(some.contains(some[j]));
                    }
                }
            }
        }
    }
}

/// The weights of a step's words.
proof fn lemma_weights(text: Seq<char>, steps: Seq<Seq<char>>)
    ensures
        weighs_words(weights(frequencies(tokens(text)), profiles(steps)), text, steps),
{
    let all = tokens(text);
    let words = vocabulary(all);
    let terms = weights(frequencies(all), profiles(steps));
    lemma_vocabulary_is_distinct(all);
    assert forall|word: Seq<char>| #[trigger] words.contains(word) <==> tokens(text).contains(
        word,
    ) by {
        lemma_vocabulary_is_what_occurs(all, word);
    }
    assert(words.no_duplicates());
    assert forall|i: int| 0 <= i < words.len() implies #[trigger] terms[i] == (
        all.to_multiset().count(words[i]),
        texts_with(steps, words[i]),
    ) by {
        lemma_occurrences_are_counted(all, words[i]);
        lemma_documents_are_texts(steps, words[i]);
        assert(frequencies(all)[i] == (words[i], occurrences(all, words[i])));
    }
}

/// The words of a list that another step has too.
proof fn lemma_shared_of_words(
    words: Seq<Seq<char>>,
    new: Seq<Seq<char>>,
    old: Seq<Seq<char>>,
    steps: Seq<FreqView>,
)
    ensures
        shared_terms(
            words.map_values(|word: Seq<char>| (word, occurrences(new, word))),
            frequencies(old),
            steps,
        ) == words.filter(|word: Seq<char>| old.contains(word)).map_values(
            |word: Seq<char>|
                (
                    new.to_multiset().count(word),
                    old.to_multiset().count(word),
                    documents_with(steps, word),
                ),
        ),
    decreases words.len(),
{
    reveal(Seq::filter);
    let list = |word: Seq<char>| (word, occurrences(new, word));
    let weigh = |word: Seq<char>|
        (
            new.to_multiset().count(word),
            old.to_multiset().count(word),
            documents_with(steps, word),
        );
    let keep = |word: Seq<char>| old.contains(word);
    let listed = |term: (Seq<char>, nat)| listed_count(frequencies(old), term.0) is Some;
    let get = |term: (Seq<char>, nat)|
        (term.1, listed_count(frequencies(old), term.0)->0, documents_with(steps, term.0));
    let freq = words.map_values(list);
    if words.len() > 0 {
        let before = words.drop_last();
        let word = words.last();
        lemma_shared_of_words(before, new, old, steps);
        assert(freq.drop_last() =~= before.map_values(list));
        lemma_listed_where_it_occurs(old, word);
        lemma_occurrences_are_counted(new, word);
        assert(freq.last() == list(word));
        assert(shared_terms(freq, frequencies(old), steps) == freq.filter(listed).map_values(get));
        if keep(word) {
            assert(freq.filter(listed) =~= freq.drop_last().filter(listed).push(freq.last()));
            assert(freq.filter(listed).map_values(get) =~= freq.drop_last().filter(
                listed,
            ).map_values(get).push(get(freq.last())));
            assert(words.filter(keep).map_values(weigh) =~= before.filter(keep).map_values(
                weigh,
            ).push(weigh(word)));
        }
    } else {
        assert(freq.filter(listed).map_values(get) =~= words.filter(keep).map_values(weigh));
    }
}

/// The weights of the words that two steps share.
proof fn lemma_shared(new: Seq<char>, old: Seq<char>, steps: Seq<Seq<char>>)
    ensures
        weighs_shared_words(
            shared_terms(
                frequencies(tokens(new)),
                frequencies(tokens(old)),
                profiles(steps),
            ),
            new,
            old,
            steps,
        ),
{
    let a = tokens(new);
    let b = tokens(old);
    let keep = |word: Seq<char>| b.contains(word);
    let words = vocabulary(a).filter(keep);
    let shared = shared_terms(frequencies(a), frequencies(b), profiles(steps));
    lemma_vocabulary_is_distinct(a);
    lemma_filter_lists_once(vocabulary(a), keep);
    lemma_shared_of_words(vocabulary(a), a, b, profiles(steps));
    assert forall|word: Seq<char>| #[trigger] words.contains(word) <==> tokens(new).contains(word)
        && tokens(old).contains(word) by {
        lemma_vocabulary_is_what_occurs(a, word);
    }
    assert(words.no_duplicates());
    assert forall|i: int| 0 <= i < words.len() implies #[trigger] shared[i] == (
        a.to_multiset().count(words[i]),
        b.to_multiset().count(words[i]),
        texts_with(steps, words[i]),
    ) by {
        lemma_documents_are_texts(steps, words[i]);
    }
}

/// What is asked about a step is about every content word of it, once, with the
/// number of times that it occurs in the step, and about every earlier step in the same
/// way, in order; and about every word that the two share. Each word comes with the
/// number of steps that have it, this one counted.
pub proof fn law_queries_count_the_words(steps: Seq<Seq<char>>)
    requires
        steps.len() > 0,
    ensures
        ({
            let query = query_of(profiles(steps));
            &&& query.step_idx == steps.len() - 1
            &&& query.documents == steps.len()
            &&& weighs_words(query.terms, steps.last(), steps)
            &&& query.rivals.len() == steps.len() - 1
            &&& forall|i: int|
                0 <= i < query.rivals.len() ==> {
                    &&& weighs_words((#[trigger] query.rivals[i]).terms, steps[i], steps)
                    &&& weighs_shared_words(
                        query.rivals[i].shared,
                        steps.last(),
                        steps[i],
                        steps,
                    )
                }
        }),
{
    let query = query_of(profiles(steps));
    let all = profiles(steps);
    assert(all.last() == frequencies(tokens(steps.last())));
    lemma_weights(steps.last(), steps);
    assert forall|i: int| 0 <= i < query.rivals.len() implies {
        &&& weighs_words((#[trigger] query.rivals[i]).terms, steps[i], steps)
        &&& weighs_shared_words(query.rivals[i].shared, steps.last(), steps[i], steps)
    } by {
        assert(all.drop_last()[i] == frequencies(tokens(steps[i])));
        lemma_weights(steps[i], steps);
        lemma_shared(steps.last(), steps[i], steps);
    }
}

/// Every step that is finished is asked about, in order: the one at an index against
/// the steps in front of that index, and no others.
pub proof fn law_every_step_is_asked_about(steps: Seq<Seq<char>>, from: nat, i: int)
    requires
        from <= i < steps.len(),
    ensures
        queries_from(steps, from).len() == steps.len() - from,
        queries_from(steps, from)[i - from] == query_of(profiles(steps.take(i + 1))),
        queries_from(steps, from)[i - from].step_idx == i,
        queries_from(steps, from)[i - from].rivals.len() == i,
{
    assert(from + (i - from) + 1 == i + 1);
}

/// After text has arrived, every marker behind the last cut has fewer content words
/// between that cut and itself than a step must have, counting a word as often as it
/// occurs. The markers are those that were found, in the order of the text.
pub proof fn law_open_text_is_too_short_for_a_step(tracker: TrackerView, delta: Seq<char>, i: int)
    requires
        in_order(marker_starts(tracker.buffer + delta)),
        0 <= i < marker_starts(tracker.buffer + delta).len(),
    ensures
        ({
            let now = tracker.fed(delta);
            marker_starts(tracker.buffer + delta)[i] matches Some(start) ==> now.consumed < start
                ==> tokens(between(tracker.buffer + delta, now.consumed as int, start as int)).len()
                < tracker.min_step_words
        }),
{
    let text = tracker.buffer + delta;
    law_no_step_is_missed(text, tracker.consumed, tracker.min_step_words, marker_starts(text));
}

/// Is `to` the first marker behind `from` up to which a text has the least number of
/// content words?
pub open spec fn is_first_fit(
    text: Seq<char>,
    from: int,
    to: int,
    min_words: nat,
    starts: Seq<Option<usize>>,
) -> bool {
    &&& from < to
    &&& exists|i: int| 0 <= i < starts.len() && (#[trigger] starts[i] matches Some(start) && start == to)
    &&& tokens(between(text, from, to)).len() >= min_words
    &&& forall|i: int|
        0 <= i < starts.len() ==> (#[trigger] starts[i] matches Some(start) ==> from < start < to
            ==> tokens(between(text, from, start as int)).len() < min_words)
}

/// Do the offsets divide a text into the steps: each step runs from one offset to the
/// next, which is that of the first marker that fits?
pub open spec fn divides(
    at: Seq<int>,
    steps: Seq<Seq<char>>,
    text: Seq<char>,
    min_words: nat,
    starts: Seq<Option<usize>>,
) -> bool {
    &&& at.len() == steps.len() + 1
    &&& forall|k: int|
        0 <= k < steps.len() ==> {
            &&& #[trigger] steps[k] == between(text, at[k], at[k + 1])
            &&& is_first_fit(text, at[k], at[k + 1], min_words, starts)
        }
}

/// A later marker changes nothing about which one fits first.
proof fn lemma_first_fit_stays(
    text: Seq<char>,
    from: int,
    to: int,
    min_words: nat,
    starts: Seq<Option<usize>>,
)
    requires
        starts.len() > 0,
        in_order(starts),
        is_first_fit(text, from, to, min_words, starts.drop_last()),
    ensures
        is_first_fit(text, from, to, min_words, starts),
{
    let fewer = starts.drop_last();
    let i = choose|i: int|
        0 <= i < fewer.len() && (#[trigger] fewer[i] matches Some(start) && start == to);
    assert(starts[i] == fewer[i]);
    assert forall|j: int| 0 <= j < starts.len() implies (#[trigger] starts[j] matches Some(start)
        ==> from < start < to ==> tokens(between(text, from, start as int)).len() < min_words) by {
        if j < fewer.len() {
            assert(fewer[j] == starts[j]);
        }
    }
}

/// A marker that is cut at is the first that fits.
proof fn lemma_cut_is_first_fit(
    text: Seq<char>,
    consumed: nat,
    min_words: nat,
    starts: Seq<Option<usize>>,
)
    requires
        starts.len() > 0,
        in_order(starts),
        cut(text, consumed, min_words, starts).0 != cut(
            text,
            consumed,
            min_words,
            starts.drop_last(),
        ).0,
    ensures
        is_first_fit(
            text,
            cut(text, consumed, min_words, starts.drop_last()).0 as int,
            cut(text, consumed, min_words, starts).0 as int,
            min_words,
            starts,
        ),
{
    let fewer = starts.drop_last();
    law_no_step_is_missed(text, consumed, min_words, fewer);
    let from = cut(text, consumed, min_words, fewer).0 as int;
    let to = cut(text, consumed, min_words, starts).0 as int;
    assert(starts[starts.len() - 1] == starts.last());
    assert forall|j: int| 0 <= j < starts.len() implies (#[trigger] starts[j] matches Some(start)
        ==> from < start < to ==> tokens(between(text, from, start as int)).len() < min_words) by {
        if j < fewer.len() {
            assert(fewer[j] == starts[j]);
        }
    }
}

/// Cutting divides a text.
proof fn lemma_cutting_divides(
    text: Seq<char>,
    consumed: nat,
    min_words: nat,
    starts: Seq<Option<usize>>,
) -> (at: Seq<int>)
    requires
        in_order(starts),
    ensures
        divides(at, cut(text, consumed, min_words, starts).1, text, min_words, starts),
        at[0] == consumed,
        at.last() == cut(text, consumed, min_words, starts).0,
    decreases starts.len(),
{
    if starts.len() == 0 {
        seq![consumed as int]
    } else {
        let fewer = starts.drop_last();
        let before = lemma_cutting_divides(text, consumed, min_words, fewer);
        let (last, steps) = cut(text, consumed, min_words, fewer);
        let (now, all) = cut(text, consumed, min_words, starts);
        let at = if now != last {
            before.push(now as int)
        } else {
            before
        };
        assert(all == if now != last {
            steps.push(between(text, last as int, now as int))
        } else {
            steps
        });
        assert forall|k: int| 0 <= k < all.len() implies {
            &&& #[trigger] all[k] == between(text, at[k], at[k + 1])
            &&& is_first_fit(text, at[k], at[k + 1], min_words, starts)
        } by {
            if k < steps.len() {
                assert(all[k] == steps[k]);
                lemma_first_fit_stays(text, before[k], before[k + 1], min_words, starts);
            } else {
                lemma_cut_is_first_fit(text, consumed, min_words, starts);
            }
        }
        at
    }
}

/// The steps that arriving text finishes follow each other from the last cut to the
/// new one. Each ends at the first marker up to which it has the least number of
/// content words. With what is left open this determines the steps: no marker is passed
/// over, and none is taken too early.
pub proof fn law_steps_end_at_the_first_marker_that_fits(tracker: TrackerView, delta: Seq<char>)
    requires
        in_order(marker_starts(tracker.buffer + delta)),
    ensures
        ({
            let text = tracker.buffer + delta;
            let now = tracker.fed(delta);
            &&& now.steps.take(tracker.steps.len() as int) == tracker.steps
            &&& exists|at: Seq<int>|
                {
                    &&& #[trigger] divides(
                        at,
                        now.steps.skip(tracker.steps.len() as int),
                        text,
                        tracker.min_step_words,
                        marker_starts(text),
                    )
                    &&& at[0] == tracker.consumed
                    &&& at.last() == now.consumed
                }
        }),
{
    let text = tracker.buffer + delta;
    let now = tracker.fed(delta);
    let new = cut(text, tracker.consumed, tracker.min_step_words, marker_starts(text)).1;
    let at = lemma_cutting_divides(
        text,
        tracker.consumed,
        tracker.min_step_words,
        marker_starts(text),
    );
    assert(now.steps.take(tracker.steps.len() as int) =~= tracker.steps);
    assert(now.steps.skip(tracker.steps.len() as int) =~= new);
}

/// Closing off a trace makes one last step of all the text behind the last one, whatever
/// markers it holds, exactly where that has the least number of content words; the
/// steps before it stay, and no text is left.
pub proof fn law_flushing_takes_all_that_is_left(tracker: TrackerView, rest: Seq<char>)
    requires
        tracker.tiled(),
        tracker.buffer == tracker.steps.flatten() + rest,
    ensures
        tokens(rest).len() >= tracker.min_step_words ==> tracker.flushed().steps
            == tracker.steps.push(rest),
        tokens(rest).len() < tracker.min_step_words ==> tracker.flushed().steps == tracker.steps,
        tracker.flushed().buffer == tracker.buffer,
        tracker.flushed().remaining() == Seq::<char>::empty(),
{
    let end = encode_utf8(tracker.buffer).len() as int;
    let said = tracker.steps.flatten();
    lemma_ends_are_boundaries(tracker.buffer);
    lemma_between_joins(tracker.buffer, 0, tracker.consumed as int, end);
    lemma_between_whole(tracker.buffer);
    assert(said + tracker.remaining() == said + rest);
    assert((said + rest).skip(said.len() as int) =~= rest);
    assert((said + tracker.remaining()).skip(said.len() as int) =~= tracker.remaining());
    assert(encode_utf8(tracker.buffer).subrange(end, end) =~= Seq::empty());
    reveal_with_fuel(vstd::utf8::valid_utf8, 1);
    assert(between(tracker.buffer, end, end) =~= Seq::empty());
}

/// The step that a new one matches is the first of those that it is most similar to.
/// There is one exactly where it is similar to any at all.
pub proof fn law_best_match_is_the_first_of_the_greatest(
    similarities: Seq<u64>,
    best: Option<usize>,
    similarity: u64,
    i: int,
)
    requires
        is_best_match(similarities, best, similarity),
        0 <= i < similarities.len(),
    ensures
        similarities[i] <= similarity,
        best matches Some(b) ==> b < similarities.len() && similarities[b as int] == similarity,
        best matches Some(b) ==> (similarities[i] == similarity ==> b <= i),
        similarities[i] > 0 ==> best is Some,
        best matches Some(b) ==> similarities[b as int] > 0,
{
}

/// What is shown of a step is its beginning, and all of it unless it is long.
pub proof fn law_snippets_are_beginnings(text: Seq<char>)
    ensures
        snippet(text).is_prefix_of(text),
        text.len() <= 160 ==> snippet(text) == text,
        text.len() > 160 ==> snippet(text).len() == 160,
{
}

/// A word by itself, of letters and digits alone, is one token, in lower case, unless
/// it is a single byte or a stop word: nothing else keeps a word from counting.
pub proof fn law_words_count_unless_short_or_stop_words(word: Seq<char>)
    requires
        forall|i: int| 0 <= i < word.len() ==> alphanumeric(#[trigger] word[i]),
    ensures
        ({
            let lower = lowercase(word);
            let is_stop = exists|i: int|
                0 <= i < STOP_WORD_COUNT && (#[trigger] STOP_WORDS@[i])@ == lower;
            tokens(word) == if encode_utf8(lower).len() > 1 && !is_stop {
                seq![lower]
            } else {
                Seq::empty()
            }
        }),
{
    lemma_one_piece(word, word.map_values(|c: char| alphanumeric(c)));
    let lower = lowercase(word);
    let lowered = pieces(word).map_values(|piece: Seq<char>| lowercase(piece));
    assert(lowered =~= seq![lower]);
    reveal(Seq::filter);
    assert(seq![lower].drop_last() =~= Seq::empty());
    reveal_with_fuel(Seq::filter, 2);
    assert(tokens(word) =~= kept(seq![lower]));
}

/// A text in which every character is part of a word is one piece.
proof fn lemma_one_piece(text: Seq<char>, wordy: Seq<bool>)
    requires
        text.len() <= wordy.len(),
        forall|i: int| 0 <= i < text.len() ==> #[trigger] wordy[i],
    ensures
        split_marked(text, wordy) == seq![text],
    decreases text.len(),
{
    if text.len() > 0 {
        lemma_one_piece(text.drop_last(), wordy);
        assert(wordy[text.len() - 1]);
        assert(text.drop_last().push(text.last()) =~= text);
        assert(split_marked(text, wordy) =~= seq![text]);
    } else {
        assert(text =~= Seq::empty());
    }
}

/// Every marker that the expression finds counts, where it is found and in that order.
pub proof fn law_every_marker_counts(text: Seq<char>, regex: regex::Regex, i: int)
    requires
        compiled(RESTART_MARKER@) == Some(regex),
    ensures
        marker_starts(text).len() == group_starts(regex, 1, text).len(),
        0 <= i < group_starts(regex, 1, text).len() ==> marker_starts(text)[i] == group_starts(
            regex,
            1,
            text,
        )[i],
{
}

/// A text that arrives in pieces is divided as the pieces come: feeding two runs of pieces is
/// feeding one and then the other, and no step that the first finished is taken back.
pub proof fn law_pieces_are_fed_in_order(
    tracker: TrackerView,
    first: Seq<Seq<char>>,
    second: Seq<Seq<char>>,
)
    ensures
        tracker.fed_all(first + second) == tracker.fed_all(first).fed_all(second),
        tracker.fed_all(first).steps.is_prefix_of(tracker.fed_all(first + second).steps),
    decreases second.len(),
{
    if second.len() == 0 {
        assert(first + second =~= first);
    } else {
        law_pieces_are_fed_in_order(tracker, first, second.drop_last());
        assert((first + second).drop_last() =~= first + second.drop_last());
        law_finished_steps_stay(tracker.fed_all(first + second.drop_last()), second.last());
    }
}

} // verus!
