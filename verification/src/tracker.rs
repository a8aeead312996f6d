//! Cuts streaming reasoning text into steps at the model's own restart markers
//! ("wait", "actually", "hold on", ...) and tells when a new step restates an
//! earlier one of the same trace.
//!
//! The counts behind a comparison are exact and are made here; the similarity
//! itself is a real number, which a caller computes from those counts and hands
//! back as an integer of the same order.

use crate::terms::{
    dot_product, freq_view, freq_views, frequencies, law_restated_step_has_the_same_vector,
    law_restated_step_shares_everything, law_unrelated_steps_share_nothing,
    law_vectors_of_steps_are_not_zero, make_query, query_of, same_words, squared_length,
    term_freq, vocabulary, weights_of, FreqView, QueryView, StepQuery, TermFreq, WeightView,
};
use crate::text::{
    between, byte_len, chars_of, decimal, decimal_text, lemma_between_joins,
    lemma_between_survives_append, lemma_between_whole, lemma_boundary_survives_append,
    lemma_ends_are_boundaries, on_boundary, slice_between, string_of,
};
use crate::words::{tokenize, tokens};
use vstd::prelude::*;
use vstd::seq_lib::lemma_flatten_concat;
use vstd::string::StringExecFns;
use vstd::utf8::encode_utf8;

verus! {

/// A compiled regular expression.
#[verifier::external_type_specification]
#[verifier::external_body]
pub struct ExRegex(regex::Regex);

/// Why a regular expression could not be compiled.
#[verifier::external_type_specification]
#[verifier::external_body]
pub struct ExRegexError(regex::Error);

/// What `regex::Regex::new` compiles a pattern to, if it does.
pub uninterp spec fn compiled(pattern: Seq<char>) -> Option<regex::Regex>;

/// Where a capture group starts in each match that `regex::Regex::captures_iter`
/// finds, as byte offsets.
pub uninterp spec fn group_starts(
    regex: regex::Regex,
    group: usize,
    text: Seq<char>,
) -> Seq<Option<usize>>;

/// `regex::Regex::new`: whether a pattern compiles, and to what, depends on the
/// pattern alone.
pub assume_specification[ regex::Regex::new ](re: &str) -> (r: Result<regex::Regex, regex::Error>)
    ensures
        match r {
            Ok(regex) => compiled(re@) == Some(regex),
            Err(_) => compiled(re@) is None,
        },
;

/// `regex::Regex::captures_iter`, and `start` of one group of each match: the
/// offsets depend on the expression, the group and the text alone; each falls on
/// a character boundary of the text; and as matches come one after the other
/// without overlap, they ascend. A group that took no part in a match has no
/// offset.
#[verifier::external_body]
fn find_group_starts(regex: &regex::Regex, group: usize, text: &str) -> (starts: Vec<Option<usize>>)
    ensures
        starts@ == group_starts(*regex, group, text@),
        forall|i: int|
            0 <= i < starts@.len() ==> (#[trigger] starts@[i] matches Some(start) ==> on_boundary(
                text@,
                start as int,
            )),
        in_order(starts@),
{
    regex.captures_iter(text).map(|found| found.get(group).map(|m| m.start())).collect()
}

/// The restart markers that bound steps, as the first group of a match. They
/// count only at the start of a sentence or a paragraph, so that an incidental
/// use in mid-sentence ("wait for the response") does not split a step.
pub const RESTART_MARKER: &'static str =
    r"(?i)(?:^|\n|\.\s)\s*(?:But\s+)?(?:Oh\s+)?(Wait|Actually|Hold on|Hmm)\b";

/// Compiles the expression for restart markers.
fn restart_marker_regex() -> (marker: Option<regex::Regex>)
    ensures
        marker == compiled(RESTART_MARKER@),
{
    match regex::Regex::new(RESTART_MARKER) {
        Ok(regex) => Some(regex),
        Err(_) => None,
    }
}

/// Where the restart markers of a text start. A pattern that did not compile
/// would mark nothing.
pub open spec fn marker_starts(text: Seq<char>) -> Seq<Option<usize>> {
    match compiled(RESTART_MARKER@) {
        Some(regex) => group_starts(regex, 1, text),
        None => Seq::empty(),
    }
}

/// Result of finishing one step, reported whether or not it crossed the
/// repetition threshold.
#[derive(Clone, Copy, Debug)]
pub struct StepEvent {
    pub step_idx: usize,
    pub best_match_idx: Option<usize>,
    pub similarity: u64,
}

/// A confirmed repetition.
#[derive(Debug)]
pub struct LoopDetected {
    pub reason: String,
}

/// The measured answer to a query: the similarity to each earlier step, as an
/// integer that grows with it and is 0 where there is none; the same
/// similarities rendered for a reader; and the seconds since the trace began.
pub struct Measurement {
    pub similarities: Vec<u64>,
    pub rendered: Vec<String>,
    pub elapsed: String,
}

/// Follows one trace.
pub struct StepTracker {
    threshold: u64,
    min_step_words: usize,
    request_id: String,
    marker: Option<regex::Regex>,
    buffer: String,
    last_consumed: usize,
    steps: Vec<TermFreq>,
    step_texts: Vec<String>,
}

/// What a tracker has seen so far.
pub struct TrackerView {
    /// The similarity from which a step counts as a repetition.
    pub threshold: u64,
    /// The least number of content words of a step.
    pub min_step_words: nat,
    /// The request that the trace belongs to.
    pub request_id: Seq<char>,
    /// All of the text.
    pub buffer: Seq<char>,
    /// How many bytes of the text belong to finished steps.
    pub consumed: nat,
    /// The texts of the finished steps.
    pub steps: Seq<Seq<char>>,
}

/// Is the text from `from` to `to` long enough to be a step?
pub open spec fn is_step(buffer: Seq<char>, from: nat, to: nat, min_words: nat) -> bool {
    from < to && tokens(between(buffer, from as int, to as int)).len() >= min_words
}

/// Cuts a text behind `consumed` at the given offsets, in their order, wherever
/// what has gathered since the last cut is long enough to be a step: the offset
/// of the last cut, and the steps.
pub open spec fn cut(
    buffer: Seq<char>,
    consumed: nat,
    min_words: nat,
    starts: Seq<Option<usize>>,
) -> (nat, Seq<Seq<char>>)
    decreases starts.len(),
{
    if starts.len() == 0 {
        (consumed, Seq::empty())
    } else {
        let (last, steps) = cut(buffer, consumed, min_words, starts.drop_last());
        match starts.last() {
            Some(start) => if is_step(buffer, last, start as nat, min_words) {
                (start as nat, steps.push(between(buffer, last as int, start as int)))
            } else {
                (last, steps)
            },
            None => (last, steps),
        }
    }
}

/// Are the offsets in ascending order?
pub open spec fn in_order(starts: Seq<Option<usize>>) -> bool {
    forall|i: int, j: int|
        0 <= i < j < starts.len() ==> (#[trigger] starts[i] matches Some(a) ==> (
        #[trigger] starts[j] matches Some(b) ==> a <= b))
}

/// Does every marker behind `consumed` leave too few content words from there on for
/// a step, repeated words counted as often as they occur?
pub open spec fn nothing_missed(
    buffer: Seq<char>,
    consumed: nat,
    min_words: nat,
    starts: Seq<Option<usize>>,
) -> bool {
    forall|i: int|
        0 <= i < starts.len() ==> (#[trigger] starts[i] matches Some(start) ==> consumed < start
            ==> tokens(between(buffer, consumed as int, start as int)).len() < min_words)
}

/// The word frequencies of some steps.
pub open spec fn profiles(steps: Seq<Seq<char>>) -> Seq<FreqView> {
    steps.map_values(|text: Seq<char>| frequencies(tokens(text)))
}

/// The queries for the steps from index `from` on, each against those before it.
pub open spec fn queries_from(steps: Seq<Seq<char>>, from: nat) -> Seq<QueryView> {
    Seq::new((steps.len() - from) as nat, |i: int| query_of(profiles(steps.take(from + i + 1))))
}

/// The models of a list of queries.
pub open spec fn query_views(queries: Seq<StepQuery>) -> Seq<QueryView> {
    queries.map_values(|query: StepQuery| query@)
}

impl TrackerView {
    /// With the steps that cutting at the given offsets finishes.
    pub open spec fn cut_at(self, starts: Seq<Option<usize>>) -> TrackerView {
        let (consumed, texts) = cut(self.buffer, self.consumed, self.min_step_words, starts);
        TrackerView { consumed, steps: self.steps + texts, ..self }
    }

    /// With more text at the end.
    pub open spec fn extended(self, delta: Seq<char>) -> TrackerView {
        TrackerView { buffer: self.buffer + delta, ..self }
    }

    /// After a piece of text has arrived.
    pub open spec fn fed(self, delta: Seq<char>) -> TrackerView {
        self.extended(delta).cut_at(marker_starts(self.buffer + delta))
    }

    /// Do the finished steps make up the text that has been consumed?
    pub open spec fn tiled(self) -> bool {
        &&& on_boundary(self.buffer, self.consumed as int)
        &&& self.steps.flatten() == between(self.buffer, 0, self.consumed as int)
    }

    /// Does every finished step have the least number of content words?
    pub open spec fn long_enough(self) -> bool {
        forall|i: int|
            0 <= i < self.steps.len() ==> tokens(#[trigger] self.steps[i]).len()
                >= self.min_step_words
    }

    /// After some pieces of text have arrived.
    pub open spec fn fed_all(self, deltas: Seq<Seq<char>>) -> TrackerView
        decreases deltas.len(),
    {
        if deltas.len() == 0 {
            self
        } else {
            self.fed_all(deltas.drop_last()).fed(deltas.last())
        }
    }

    /// The text that belongs to no finished step yet.
    pub open spec fn remaining(self) -> Seq<char> {
        between(self.buffer, self.consumed as int, encode_utf8(self.buffer).len() as int)
    }

    /// Is the remaining text long enough to be a step?
    pub open spec fn remaining_is_step(self) -> bool {
        tokens(self.remaining()).len() >= self.min_step_words
    }

    /// After the remaining text has been closed off.
    pub open spec fn flushed(self) -> TrackerView {
        TrackerView {
            consumed: encode_utf8(self.buffer).len(),
            steps: if self.remaining_is_step() {
                self.steps.push(self.remaining())
            } else {
                self.steps
            },
            ..self
        }
    }
}

/// Is `best` the first earlier step of the greatest similarity? There is none
/// where nothing is similar at all.
pub open spec fn is_best_match(similarities: Seq<u64>, best: Option<usize>, similarity: u64) -> bool {
    match best {
        Some(b) => {
            &&& b < similarities.len()
            &&& similarities[b as int] == similarity
            &&& similarity > 0
            &&& forall|i: int| 0 <= i < similarities.len() ==> #[trigger] similarities[i] <= similarity
            &&& forall|i: int| 0 <= i < b ==> #[trigger] similarities[i] < similarity
        },
        None => {
            &&& similarity == 0
            &&& forall|i: int| 0 <= i < similarities.len() ==> #[trigger] similarities[i] == 0
        },
    }
}

/// The first characters of a step, for a reader.
pub open spec fn snippet(text: Seq<char>) -> Seq<char> {
    if text.len() <= 160 {
        text
    } else {
        text.take(160)
    }
}

/// The sentence that reports a repetition.
pub open spec fn reason_text(
    request_id: Seq<char>,
    step_idx: nat,
    match_idx: nat,
    similarity: Seq<char>,
    elapsed: Seq<char>,
    earlier: Seq<char>,
) -> Seq<char> {
    "request="@ + request_id + " step "@ + decimal(step_idx) + " repeats step "@ + decimal(
        match_idx,
    ) + " (similarity "@ + similarity + ", elapsed="@ + elapsed + "s): \""@ + snippet(earlier)
        + "\""@
}

/// Finds the first of the greatest similarities.
fn best_match(similarities: &Vec<u64>) -> (best: (Option<usize>, u64))
    ensures
        is_best_match(similarities@, best.0, best.1),
{
    let mut best: Option<usize> = None;
    let mut similarity: u64 = 0;
    let mut i: usize = 0;
    while i < similarities.len()
        invariant
            i <= similarities@.len(),
            is_best_match(similarities@.take(i as int), best, similarity),
        decreases similarities@.len() - i,
    {
        let ghost seen = similarities@.take(i as int);
        let ghost next = similarities@.take(i + 1);
        assert(next =~= seen.push(similarities@[i as int]));
        if similarities[i] > similarity {
            similarity = similarities[i];
            best = Some(i);
        }
        proof {
            assert forall|j: int| 0 <= j < next.len() implies #[trigger] next[j] <= similarity by {
                if j < i {
                    assert(seen[j] <= similarity);
                }
            }
            assert forall|j: int| 0 <= j < i implies next[j] == seen[j] by {}
        }
        i += 1;
    }
    assert(similarities@.take(i as int) =~= similarities@);
    (best, similarity)
}

/// The first characters of a step, for a reader.
pub fn snippet_of(text: &str) -> (s: String)
    ensures
        s@ == snippet(text@),
{
    let chars = chars_of(text);
    let end: usize = if chars.len() <= 160 {
        chars.len()
    } else {
        160
    };
    let s = string_of(&chars, 0, end);
    assert(s@ =~= snippet(text@));
    s
}

impl View for StepTracker {
    type V = TrackerView;

    closed spec fn view(&self) -> TrackerView {
        TrackerView {
            threshold: self.threshold,
            min_step_words: self.min_step_words as nat,
            request_id: self.request_id@,
            buffer: self.buffer@,
            consumed: self.last_consumed as nat,
            steps: crate::text::views(self.step_texts@),
        }
    }
}

impl StepTracker {
    /// Does every part of the tracker fit the others?
    pub closed spec fn wf(self) -> bool {
        &&& self.marker == compiled(RESTART_MARKER@)
        &&& on_boundary(self.buffer@, self.last_consumed as int)
        &&& freq_views(self.steps@) == profiles(self@.steps)
    }

    /// A tracker that has seen nothing yet.
    pub fn new(threshold: u64, min_step_words: usize, request_id: String) -> (tracker: StepTracker)
        ensures
            tracker.wf(),
            tracker@.tiled(),
            tracker@.long_enough(),
            tracker@ == (TrackerView {
                threshold,
                min_step_words: min_step_words as nat,
                request_id: request_id@,
                buffer: Seq::empty(),
                consumed: 0,
                steps: Seq::empty(),
            }),
    {
        let marker = restart_marker_regex();
        let tracker = StepTracker {
            threshold,
            min_step_words,
            request_id,
            marker,
            buffer: String::new(),
            last_consumed: 0,
            steps: Vec::new(),
            step_texts: Vec::new(),
        };
        proof {
            lemma_ends_are_boundaries(tracker.buffer@);
            assert(tracker@.steps =~= Seq::empty());
            lemma_between_whole(tracker.buffer@);
            assert(encode_utf8(tracker.buffer@).len() == 0);
            assert(freq_views(tracker.steps@) =~= profiles(tracker@.steps));
        }
        tracker
    }

    /// Records a finished step, and asks how similar it is to the earlier ones.
    fn finalize_step(&mut self, text: String) -> (query: StepQuery)
        requires
            old(self).wf(),
        ensures
            final(self).wf(),
            final(self)@ == (TrackerView { steps: old(self)@.steps.push(text@), ..old(self)@ }),
            query@ == query_of(profiles(final(self)@.steps)),
    {
        let ghost texts = self@.steps;
        let ghost freqs = self.steps@;
        let words = tokenize(text.as_str());
        let freq = term_freq(&words);
        self.steps.push(freq);
        self.step_texts.push(text);
        proof {
            assert(self@.steps =~= texts.push(text@));
            assert(freq_views(self.steps@) =~= freq_views(freqs).push(freq_view(freq@)));
            assert(profiles(self@.steps) =~= profiles(texts).push(frequencies(tokens(text@))));
        }
        make_query(&self.steps)
    }

    /// Cuts the text at the given offsets, in their order, wherever what has
    /// gathered since the last cut is long enough to be a step. Returns the
    /// query of every step that this finishes.
    pub fn split_at_markers(&mut self, starts: &Vec<Option<usize>>) -> (queries: Vec<StepQuery>)
        requires
            old(self).wf(),
            forall|i: int|
                0 <= i < starts@.len() ==> (#[trigger] starts@[i] matches Some(start)
                    ==> on_boundary(old(self)@.buffer, start as int)),
        ensures
            final(self).wf(),
            final(self)@ == old(self)@.cut_at(starts@),
            query_views(queries@) == queries_from(final(self)@.steps, old(self)@.steps.len()),
            in_order(starts@) ==> nothing_missed(
                old(self)@.buffer,
                final(self)@.consumed,
                old(self)@.min_step_words,
                starts@,
            ),
    {
        let ghost v = self@;
        let mut queries: Vec<StepQuery> = Vec::new();
        let mut i: usize = 0;
        proof {
            assert(self@.steps =~= v.steps + Seq::empty());
            assert(query_views(queries@) =~= queries_from(self@.steps, v.steps.len()));
        }
        while i < starts.len()
            invariant
                v == old(self)@,
                self.wf(),
                self@ == v.cut_at(starts@.take(i as int)),
                i <= starts@.len(),
                query_views(queries@) == queries_from(self@.steps, v.steps.len()),
                v.steps.len() <= self@.steps.len(),
                forall|j: int|
                    0 <= j < starts@.len() ==> (#[trigger] starts@[j] matches Some(start)
                        ==> on_boundary(v.buffer, start as int)),
            decreases starts@.len() - i,
        {
            let ghost now = self@;
            let ghost next = starts@.take(i + 1);
            assert(next.drop_last() =~= starts@.take(i as int));
            match starts[i] {
                Some(start) => if start > self.last_consumed {
                    let text = slice_between(self.buffer.as_str(), self.last_consumed, start).to_owned();
                    let words = tokenize(text.as_str());
                    if words.len() >= self.min_step_words {
                        assert(crate::text::views(words@).len() == words@.len());
                        self.last_consumed = start;
                        let ghost before = queries@;
                        queries.push(self.finalize_step(text));
                        proof {
                            assert(self@.steps =~= now.steps.push(text@));
                            assert(self@.steps =~= v.steps + cut(
                                v.buffer,
                                v.consumed,
                                v.min_step_words,
                                next,
                            ).1);
                            assert(self@ == v.cut_at(next));
                            lemma_queries_push(now.steps, text@, v.steps.len());
                            assert(query_views(queries@) =~= query_views(before).push(
                                query_of(profiles(self@.steps)),
                            ));
                        }
                    } else {
                        assert(crate::text::views(words@).len() == words@.len());
                    }
                },
                None => {},
            }
            i += 1;
        }
        proof {
            assert(starts@.take(i as int) =~= starts@);
            if in_order(starts@) {
                law_no_step_is_missed(v.buffer, v.consumed, v.min_step_words, starts@);
            }
        }
        queries
    }

    /// Takes in a newly arrived piece of text. Returns the query of every step
    /// that it finishes: usually none or one, but a big piece may hold several
    /// markers.
    pub fn feed(&mut self, delta: &str) -> (queries: Vec<StepQuery>)
        requires
            old(self).wf(),
        ensures
            final(self).wf(),
            final(self)@ == old(self)@.fed(delta@),
            query_views(queries@) == queries_from(final(self)@.steps, old(self)@.steps.len()),
            nothing_missed(
                final(self)@.buffer,
                final(self)@.consumed,
                final(self)@.min_step_words,
                marker_starts(final(self)@.buffer),
            ),
            old(self)@.tiled() ==> final(self)@.tiled(),
            old(self)@.tiled() ==> final(self)@.steps.flatten() + final(self)@.remaining()
                == final(self)@.buffer,
            old(self)@.long_enough() ==> final(self)@.long_enough(),
            forall|i: int|
                0 <= i < queries@.len() ==> (#[trigger] queries@[i]).step_idx
                    == old(self)@.steps.len() + i,
    {
        let ghost before = self@;
        proof {
            lemma_boundary_survives_append(self.buffer@, delta@, self.last_consumed as int);
        }
        self.buffer.append(delta);
        let starts: Vec<Option<usize>> = match &self.marker {
            Some(regex) => find_group_starts(regex, 1, self.buffer.as_str()),
            None => Vec::new(),
        };
        proof {
            assert(starts@ =~= marker_starts(self@.buffer));
            law_no_step_is_missed(
                self@.buffer,
                self@.consumed,
                self@.min_step_words,
                starts@,
            );
            if before.tiled() {
                law_steps_make_up_the_text(before, delta@);
            }
            if before.long_enough() {
                law_steps_stay_long_enough(before, delta@);
            }
        }
        let queries = self.split_at_markers(&starts);
        proof {
            law_finished_steps_stay(before, delta@);
            lemma_queries_are_numbered(queries@, self@.steps, before.steps.len());
        }
        queries
    }

    /// Closes off whatever text is left, at the natural end of a trace or right
    /// before a forced one, and checks it as a last step.
    pub fn flush(&mut self) -> (query: Option<StepQuery>)
        requires
            old(self).wf(),
        ensures
            final(self).wf(),
            final(self)@ == old(self)@.flushed(),
            match query {
                Some(query) => old(self)@.remaining_is_step() && query@ == query_of(
                    profiles(final(self)@.steps),
                ),
                None => !old(self)@.remaining_is_step(),
            },
            old(self)@.long_enough() ==> final(self)@.long_enough(),
            query matches Some(query) ==> query.step_idx == old(self)@.steps.len(),
    {
        let ghost before = self@;
        proof {
            if before.long_enough() {
                law_steps_stay_long_enough(before, Seq::empty());
            }
        }
        let end: usize = byte_len(self.buffer.as_str());
        proof {
            lemma_ends_are_boundaries(self.buffer@);
        }
        let text = slice_between(self.buffer.as_str(), self.last_consumed, end).to_owned();
        self.last_consumed = end;
        let words = tokenize(text.as_str());
        assert(crate::text::views(words@).len() == words@.len());
        if words.len() < self.min_step_words {
            return None;
        }
        Some(self.finalize_step(text))
    }

    /// The text of a finished step.
    pub fn step_text(&self, step_idx: usize) -> (text: String)
        requires
            self.wf(),
            step_idx < self@.steps.len(),
        ensures
            text@ == self@.steps[step_idx as int],
    {
        self.step_texts[step_idx].as_str().to_owned()
    }

    /// Judges a step by its measured similarity to the earlier ones: it repeats
    /// the one that it is most similar to, if that reaches the threshold.
    pub fn judge(&self, step_idx: usize, measured: &Measurement) -> (verdict: (
        StepEvent,
        Option<LoopDetected>,
    ))
        requires
            self.wf(),
            step_idx <= self@.steps.len(),
            measured.similarities@.len() == step_idx,
            measured.rendered@.len() == step_idx,
        ensures
            verdict.0.step_idx == step_idx,
            is_best_match(
                measured.similarities@,
                verdict.0.best_match_idx,
                verdict.0.similarity,
            ),
            match verdict.1 {
                Some(hit) => {
                    &&& verdict.0.best_match_idx is Some
                    &&& verdict.0.similarity >= self@.threshold
                    &&& hit.reason@ == reason_text(
                        self@.request_id,
                        step_idx as nat,
                        verdict.0.best_match_idx->0 as nat,
                        measured.rendered@[verdict.0.best_match_idx->0 as int]@,
                        measured.elapsed@,
                        self@.steps[verdict.0.best_match_idx->0 as int],
                    )
                },
                None => verdict.0.best_match_idx is None || verdict.0.similarity < self@.threshold,
            },
    {
        let (best, similarity) = best_match(&measured.similarities);
        let event = StepEvent { step_idx, best_match_idx: best, similarity };
        match best {
            Some(b) => if similarity >= self.threshold {
                let reason = "request=".to_owned().concat(self.request_id.as_str()).concat(
                    " step ",
                ).concat(decimal_text(step_idx as u64).as_str()).concat(" repeats step ").concat(
                    decimal_text(b as u64).as_str(),
                ).concat(" (similarity ").concat(measured.rendered[b].as_str()).concat(
                    ", elapsed=",
                ).concat(measured.elapsed.as_str()).concat("s): \"").concat(
                    snippet_of(self.step_texts[b].as_str()).as_str(),
                ).concat("\"");
                (event, Some(LoopDetected { reason }))
            } else {
                (event, None)
            },
            None => (event, None),
        }
    }
}

/// The queries of steps are numbered as the steps are, and there is one for each.
pub proof fn lemma_queries_are_numbered(queries: Seq<StepQuery>, steps: Seq<Seq<char>>, from: nat)
    requires
        from <= steps.len(),
        query_views(queries) == queries_from(steps, from),
    ensures
        queries.len() == steps.len() - from,
        forall|i: int| 0 <= i < queries.len() ==> (#[trigger] queries[i]).step_idx == from + i,
{
    assert(query_views(queries).len() == queries.len());
    assert forall|i: int| 0 <= i < queries.len() implies (#[trigger] queries[i]).step_idx == from
        + i by {
        assert(query_views(queries)[i] == queries[i]@);
        assert(profiles(steps.take(from + i + 1)).len() == from + i + 1);
    }
}

/// One more step adds one more query, which leaves the others as they are.
proof fn lemma_queries_push(steps: Seq<Seq<char>>, text: Seq<char>, from: nat)
    requires
        from <= steps.len(),
    ensures
        queries_from(steps.push(text), from) == queries_from(steps, from).push(
            query_of(profiles(steps.push(text))),
        ),
{
    let more = steps.push(text);
    assert forall|i: int| 0 <= i < steps.len() - from implies #[trigger] queries_from(more, from)[i]
        == queries_from(steps, from)[i] by {
        assert(more.take(from + i + 1) =~= steps.take(from + i + 1));
    }
    assert(more.take(more.len() as int) =~= more);
    assert(queries_from(more, from) =~= queries_from(steps, from).push(query_of(profiles(more))));
}

/// The end of the last cut is a boundary at or behind the start, and the steps
/// are the text up to there, in order and without a gap.
pub proof fn law_steps_tile_the_text(
    buffer: Seq<char>,
    consumed: nat,
    min_words: nat,
    starts: Seq<Option<usize>>,
)
    requires
        on_boundary(buffer, consumed as int),
        forall|i: int|
            0 <= i < starts.len() ==> (#[trigger] starts[i] matches Some(start) ==> on_boundary(
                buffer,
                start as int,
            )),
    ensures
        on_boundary(buffer, cut(buffer, consumed, min_words, starts).0 as int),
        consumed <= cut(buffer, consumed, min_words, starts).0,
        cut(buffer, consumed, min_words, starts).1.flatten() == between(
            buffer,
            consumed as int,
            cut(buffer, consumed, min_words, starts).0 as int,
        ),
    decreases starts.len(),
{
    if starts.len() == 0 {
        assert(encode_utf8(buffer).subrange(consumed as int, consumed as int) =~= Seq::empty());
        reveal_with_fuel(vstd::utf8::valid_utf8, 1);
        assert(between(buffer, consumed as int, consumed as int) =~= Seq::empty());
    } else {
        let fewer = starts.drop_last();
        law_steps_tile_the_text(buffer, consumed, min_words, fewer);
        let (last, steps) = cut(buffer, consumed, min_words, fewer);
        match starts.last() {
            Some(start) => {
                assert(starts[starts.len() - 1] == Some(start));
                if is_step(buffer, last, start as nat, min_words) {
                    steps.lemma_flatten_push(between(buffer, last as int, start as int));
                    lemma_between_joins(buffer, consumed as int, last as int, start as int);
                }
            },
            None => {},
        }
    }
}

/// Nothing of a trace is lost or invented: as text arrives, the finished steps
/// and the text that remains go on to make up all of the text, in order. The
/// markers are those that were found in the text, at character boundaries.
pub proof fn law_steps_make_up_the_text(tracker: TrackerView, delta: Seq<char>)
    requires
        tracker.tiled(),
        markers_fit(tracker.buffer + delta),
    ensures
        tracker.fed(delta).tiled(),
        tracker.fed(delta).steps.flatten() + tracker.fed(delta).remaining() == tracker.buffer
            + delta,
{
    let more = tracker.extended(delta);
    let starts = marker_starts(more.buffer);
    let (last, steps) = cut(more.buffer, more.consumed, more.min_step_words, starts);
    let now = tracker.fed(delta);
    let end = encode_utf8(more.buffer).len() as int;
    lemma_boundary_survives_append(tracker.buffer, delta, tracker.consumed as int);
    lemma_between_survives_append(tracker.buffer, delta, 0, tracker.consumed as int);
    law_steps_tile_the_text(more.buffer, more.consumed, more.min_step_words, starts);
    lemma_ends_are_boundaries(more.buffer);
    lemma_flatten_concat(tracker.steps, steps);
    lemma_between_joins(more.buffer, 0, more.consumed as int, last as int);
    lemma_between_joins(more.buffer, 0, last as int, end);
    lemma_between_whole(more.buffer);
}

/// Are the markers of a text at character boundaries?
pub open spec fn markers_fit(text: Seq<char>) -> bool {
    forall|i: int|
        0 <= i < marker_starts(text).len() ==> (#[trigger] marker_starts(text)[i] matches Some(start)
            ==> on_boundary(text, start as int))
}

/// Over a whole trace, the finished steps and the text that remains make up all the
/// text that arrived, in order. The markers are those that are found, which are at
/// character boundaries.
pub proof fn law_whole_traces_are_made_up_of_steps(tracker: TrackerView, deltas: Seq<Seq<char>>)
    requires
        tracker.tiled(),
        forall|text: Seq<char>| #[trigger] markers_fit(text),
    ensures
        tracker.fed_all(deltas).tiled(),
        tracker.fed_all(deltas).steps.flatten() + tracker.fed_all(deltas).remaining()
            == tracker.buffer + deltas.flatten(),
    decreases deltas.len(),
{
    if deltas.len() == 0 {
        let end = encode_utf8(tracker.buffer).len() as int;
        lemma_ends_are_boundaries(tracker.buffer);
        lemma_between_joins(tracker.buffer, 0, tracker.consumed as int, end);
        lemma_between_whole(tracker.buffer);
        assert(tracker.buffer + deltas.flatten() =~= tracker.buffer);
    } else {
        let fewer = deltas.drop_last();
        let before = tracker.fed_all(fewer);
        law_whole_traces_are_made_up_of_steps(tracker, fewer);
        assert(markers_fit(before.buffer + deltas.last()));
        law_steps_make_up_the_text(before, deltas.last());
        lemma_whole_text(tracker, fewer);
        fewer.lemma_flatten_push(deltas.last());
        assert(fewer.push(deltas.last()) =~= deltas);
        assert((tracker.buffer + fewer.flatten()) + deltas.last() =~= tracker.buffer
            + deltas.flatten());
    }
}

/// The text of a tracker is all that arrived.
proof fn lemma_whole_text(tracker: TrackerView, deltas: Seq<Seq<char>>)
    ensures
        tracker.fed_all(deltas).buffer == tracker.buffer + deltas.flatten(),
    decreases deltas.len(),
{
    if deltas.len() == 0 {
        assert(tracker.buffer + deltas.flatten() =~= tracker.buffer);
    } else {
        let fewer = deltas.drop_last();
        lemma_whole_text(tracker, fewer);
        fewer.lemma_flatten_push(deltas.last());
        assert(fewer.push(deltas.last()) =~= deltas);
        assert((tracker.buffer + fewer.flatten()) + deltas.last() =~= tracker.buffer
            + deltas.flatten());
    }
}

/// Every step that cutting finishes has the least number of content words.
pub proof fn law_steps_are_long_enough(
    buffer: Seq<char>,
    consumed: nat,
    min_words: nat,
    starts: Seq<Option<usize>>,
)
    ensures
        forall|i: int|
            0 <= i < cut(buffer, consumed, min_words, starts).1.len() ==> tokens(
                #[trigger] cut(buffer, consumed, min_words, starts).1[i],
            ).len() >= min_words,
    decreases starts.len(),
{
    if starts.len() > 0 {
        let fewer = starts.drop_last();
        law_steps_are_long_enough(buffer, consumed, min_words, fewer);
        let steps = cut(buffer, consumed, min_words, fewer).1;
        let all = cut(buffer, consumed, min_words, starts).1;
        assert forall|i: int| 0 <= i < all.len() implies tokens(#[trigger] all[i]).len()
            >= min_words by {
            if i < steps.len() {
                assert(all[i] == steps[i]);
            }
        }
    }
}

/// However much text arrives, and when the rest is closed off, every finished step
/// has the least number of content words, if every one so far has.
pub proof fn law_steps_stay_long_enough(tracker: TrackerView, delta: Seq<char>)
    requires
        tracker.long_enough(),
    ensures
        tracker.fed(delta).long_enough(),
        tracker.flushed().long_enough(),
{
    let more = tracker.extended(delta);
    let starts = marker_starts(more.buffer);
    law_steps_are_long_enough(more.buffer, more.consumed, more.min_step_words, starts);
    let new = cut(more.buffer, more.consumed, more.min_step_words, starts).1;
    let fed = tracker.fed(delta);
    assert forall|i: int| 0 <= i < fed.steps.len() implies tokens(#[trigger] fed.steps[i]).len()
        >= fed.min_step_words by {
        if i < tracker.steps.len() {
            assert(fed.steps[i] == tracker.steps[i]);
        } else {
            assert(fed.steps[i] == new[i - tracker.steps.len()]);
        }
    }
    let flushed = tracker.flushed();
    assert forall|i: int| 0 <= i < flushed.steps.len() implies tokens(
        #[trigger] flushed.steps[i],
    ).len() >= flushed.min_step_words by {
        if i < tracker.steps.len() {
            assert(flushed.steps[i] == tracker.steps[i]);
        }
    }
}

/// Over a whole trace, every finished step has the least number of content words,
/// the text is all that arrived, and steps once finished stay.
pub proof fn law_whole_traces_have_long_steps(tracker: TrackerView, deltas: Seq<Seq<char>>)
    requires
        tracker.long_enough(),
    ensures
        tracker.fed_all(deltas).long_enough(),
        tracker.fed_all(deltas).flushed().long_enough(),
        tracker.fed_all(deltas).buffer == tracker.buffer + deltas.flatten(),
        tracker.steps.is_prefix_of(tracker.fed_all(deltas).steps),
    decreases deltas.len(),
{
    if deltas.len() == 0 {
        assert(tracker.buffer + deltas.flatten() =~= tracker.buffer);
        law_steps_stay_long_enough(tracker, Seq::empty());
    } else {
        let fewer = deltas.drop_last();
        let before = tracker.fed_all(fewer);
        law_whole_traces_have_long_steps(tracker, fewer);
        law_steps_stay_long_enough(before, deltas.last());
        law_steps_stay_long_enough(before.fed(deltas.last()), Seq::empty());
        law_finished_steps_stay(before, deltas.last());
        lemma_whole_text(tracker, deltas);
    }
}

/// Every cut is at a marker.
pub proof fn law_cuts_are_at_markers(
    buffer: Seq<char>,
    consumed: nat,
    min_words: nat,
    starts: Seq<Option<usize>>,
)
    ensures
        cut(buffer, consumed, min_words, starts).0 == consumed || exists|i: int|
            0 <= i < starts.len() && (#[trigger] starts[i]) == Some(
                cut(buffer, consumed, min_words, starts).0 as usize,
            ),
        cut(buffer, consumed, min_words, starts).1.len() > 0 ==> cut(
            buffer,
            consumed,
            min_words,
            starts,
        ).0 > consumed,
        cut(buffer, consumed, min_words, starts).0 >= consumed,
    decreases starts.len(),
{
    if starts.len() > 0 {
        let fewer = starts.drop_last();
        law_cuts_are_at_markers(buffer, consumed, min_words, fewer);
        let last = cut(buffer, consumed, min_words, fewer).0;
        if cut(buffer, consumed, min_words, starts).0 != last {
            assert(starts[starts.len() - 1] == Some(
                cut(buffer, consumed, min_words, starts).0 as usize,
            ));
        } else if last != consumed {
            let i = choose|i: int|
                0 <= i < fewer.len() && (#[trigger] fewer[i]) == Some(last as usize);
            assert(starts[i] == Some(last as usize));
        }
    }
}

/// Every marker behind the last cut leaves too little text for a step: no step
/// that could have been finished is left open.
pub proof fn law_no_step_is_missed(
    buffer: Seq<char>,
    consumed: nat,
    min_words: nat,
    starts: Seq<Option<usize>>,
)
    requires
        in_order(starts),
    ensures
        nothing_missed(
            buffer,
            cut(buffer, consumed, min_words, starts).0,
            min_words,
            starts,
        ),
    decreases starts.len(),
{
    if starts.len() > 0 {
        let fewer = starts.drop_last();
        law_no_step_is_missed(buffer, consumed, min_words, fewer);
        let last = cut(buffer, consumed, min_words, starts).0;
        assert forall|i: int| 0 <= i < starts.len() implies (#[trigger] starts[i] matches Some(start)
            ==> last < start ==> tokens(between(buffer, last as int, start as int)).len()
            < min_words) by {
            if i < starts.len() - 1 {
                assert(fewer[i] == starts[i]);
                assert(starts[starts.len() - 1] == starts.last());
            }
        }
    }
}

/// Steps that are finished stay as they are when more text arrives.
pub proof fn law_finished_steps_stay(tracker: TrackerView, delta: Seq<char>)
    ensures
        tracker.steps.is_prefix_of(tracker.fed(delta).steps),
        tracker.fed(delta).buffer == tracker.buffer + delta,
        tracker.fed(delta).threshold == tracker.threshold,
        tracker.fed(delta).min_step_words == tracker.min_step_words,
        tracker.fed(delta).request_id == tracker.request_id,
{
}

/// A step counts as a repetition exactly when its similarity to some earlier
/// step, whichever that is and however many there are, reaches the threshold.
pub proof fn law_repetition_is_similarity_to_some_step(
    similarities: Seq<u64>,
    best: Option<usize>,
    similarity: u64,
    threshold: u64,
)
    requires
        is_best_match(similarities, best, similarity),
    ensures
        (best is Some && similarity >= threshold) <==> (exists|i: int|
            0 <= i < similarities.len() && #[trigger] similarities[i] > 0 && similarities[i]
                >= threshold),
{
    if best is Some && similarity >= threshold {
        assert(similarities[best->0 as int] > 0);
    }
}

/// The best match is determined by the similarities.
pub proof fn law_best_match_is_unique(
    similarities: Seq<u64>,
    a: Option<usize>,
    x: u64,
    b: Option<usize>,
    y: u64,
)
    requires
        is_best_match(similarities, a, x),
        is_best_match(similarities, b, y),
    ensures
        a == b,
        x == y,
{
    if a is Some {
        assert(similarities[a->0 as int] > 0);
        assert(b is Some);
        assert(similarities[b->0 as int] == y);
    } else if b is Some {
        assert(similarities[b->0 as int] > 0);
    }
}

/// A step that restates an earlier one, in whatever word order, however long ago
/// that was and whatever came in between, is measured against it with every word
/// shared, at the same weights on both sides.
pub proof fn law_restatement_is_measured_as_one(steps: Seq<Seq<char>>, i: int)
    requires
        0 <= i < steps.len() - 1,
        same_words(tokens(steps.last()), tokens(steps[i])),
    ensures
        ({
            let query = query_of(profiles(steps));
            let new = tokens(steps.last());
            let old = tokens(steps[i]);
            let all = profiles(steps);
            &&& query.rivals[i].shared == query.terms.map_values(
                |weight: WeightView| (weight.0, weight.0, weight.1),
            )
            &&& query.terms == weights_of(vocabulary(new), new, all)
            &&& query.rivals[i].terms == weights_of(vocabulary(old), new, all)
            &&& vocabulary(old).to_multiset() == vocabulary(new).to_multiset()
        }),
{
    let all = profiles(steps);
    assert(all.last() == frequencies(tokens(steps.last())));
    assert(all.drop_last()[i] == frequencies(tokens(steps[i])));
    law_restated_step_shares_everything(tokens(steps.last()), tokens(steps[i]), all);
}

/// However words are weighed by the number of steps that have them, a step that
/// restates an earlier one has the same vector, which is not zero: their product is
/// the squared length of either, so that the cosine is one.
pub proof fn law_restatement_has_cosine_one(
    steps: Seq<Seq<char>>,
    i: int,
    weigh: spec_fn(nat) -> int,
)
    requires
        0 <= i < steps.len() - 1,
        same_words(tokens(steps.last()), tokens(steps[i])),
        tokens(steps.last()).len() > 0,
        forall|documents: nat| documents >= 1 ==> #[trigger] weigh(documents) > 0,
    ensures
        ({
            let query = query_of(profiles(steps));
            let length = squared_length(query.terms, weigh);
            &&& length > 0
            &&& squared_length(query.rivals[i].terms, weigh) == length
            &&& dot_product(query.rivals[i].shared, weigh) == length
        }),
{
    let all = profiles(steps);
    assert(all.last() == frequencies(tokens(steps.last())));
    assert(all[all.len() - 1] == all.last());
    assert(all.drop_last()[i] == frequencies(tokens(steps[i])));
    law_restated_step_has_the_same_vector(
        tokens(steps.last()),
        tokens(steps[i]),
        all,
        weigh,
    );
    law_vectors_of_steps_are_not_zero(tokens(steps.last()), all, weigh);
}

/// However words are weighed, a step that has no word in common with an earlier one
/// is measured against it with nothing shared, and the product of their vectors is
/// zero, so that the cosine is zero.
pub proof fn law_novelty_is_measured_as_nothing(
    steps: Seq<Seq<char>>,
    i: int,
    weigh: spec_fn(nat) -> int,
)
    requires
        0 <= i < steps.len() - 1,
        forall|k: int|
            0 <= k < tokens(steps.last()).len() ==> !tokens(steps[i]).contains(
                #[trigger] tokens(steps.last())[k],
            ),
    ensures
        query_of(profiles(steps)).rivals[i].shared.len() == 0,
        dot_product(query_of(profiles(steps)).rivals[i].shared, weigh) == 0,
{
    let all = profiles(steps);
    assert(all.last() == frequencies(tokens(steps.last())));
    assert(all.drop_last()[i] == frequencies(tokens(steps[i])));
    law_unrelated_steps_share_nothing(tokens(steps.last()), tokens(steps[i]), all);
}

/// A step that is similar to no earlier one at all, be it the first, matches none,
/// whatever the threshold.
pub proof fn law_novelty_matches_nothing(
    similarities: Seq<u64>,
    best: Option<usize>,
    similarity: u64,
)
    requires
        forall|i: int| 0 <= i < similarities.len() ==> #[trigger] similarities[i] == 0,
        is_best_match(similarities, best, similarity),
    ensures
        best is None,
        similarity == 0,
{
    if best is Some {
        assert(similarities[best->0 as int] == 0);
    }
}

} // verus!
