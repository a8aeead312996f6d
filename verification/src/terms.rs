//! Word frequencies of the steps of a trace, and the counts from which the
//! similarity of two steps is computed.

use crate::text::{str_eq, views};
use vstd::prelude::*;

verus! {

/// A word and how often it occurs in a step.
pub struct TermCount {
    pub word: String,
    pub count: usize,
}

/// The words of one step, each once, in the order of their first occurrence.
pub type TermFreq = Vec<TermCount>;

/// The words of one step with their counts.
pub type FreqView = Seq<(Seq<char>, nat)>;

/// The model of a frequency list.
pub open spec fn freq_view(freq: Seq<TermCount>) -> FreqView {
    freq.map_values(|term: TermCount| (term.word@, term.count as nat))
}

/// The different words of a list, in the order of their first occurrence.
pub open spec fn vocabulary(tokens: Seq<Seq<char>>) -> Seq<Seq<char>>
    decreases tokens.len(),
{
    if tokens.len() == 0 {
        Seq::empty()
    } else {
        let before = vocabulary(tokens.drop_last());
        if before.contains(tokens.last()) {
            before
        } else {
            before.push(tokens.last())
        }
    }
}

/// How often a word occurs in a list.
pub open spec fn occurrences(tokens: Seq<Seq<char>>, word: Seq<char>) -> nat {
    tokens.filter(|token: Seq<char>| token == word).len()
}

/// Every different word of a list with the number of its occurrences.
pub open spec fn frequencies(tokens: Seq<Seq<char>>) -> FreqView {
    vocabulary(tokens).map_values(|word: Seq<char>| (word, occurrences(tokens, word)))
}

/// One more token raises the count of that word and of no other.
pub proof fn lemma_occurrences_push(tokens: Seq<Seq<char>>, token: Seq<char>, word: Seq<char>)
    ensures
        occurrences(tokens.push(token), word) == occurrences(tokens, word) + if token == word {
            1nat
        } else {
            0nat
        },
{
    reveal(Seq::filter);
    assert(tokens.push(token).drop_last() =~= tokens);
}

/// A word outside the vocabulary does not occur.
proof fn lemma_unknown_word_does_not_occur(tokens: Seq<Seq<char>>, word: Seq<char>)
    requires
        !vocabulary(tokens).contains(word),
    ensures
        occurrences(tokens, word) == 0,
    decreases tokens.len(),
{
    reveal(Seq::filter);
    if tokens.len() > 0 {
        let before = tokens.drop_last();
        let known = vocabulary(before);
        assert(!known.contains(word)) by {
            if known.contains(word) {
                let i = known.index_of(word);
                assert(vocabulary(tokens)[i] == word);
            }
        }
        assert(tokens.last() != word) by {
            if tokens.last() == word {
                assert(vocabulary(tokens).last() == word);
            }
        }
        lemma_unknown_word_does_not_occur(before, word);
        assert(before.push(tokens.last()) =~= tokens);
        lemma_occurrences_push(before, tokens.last(), word);
    }
}

/// A word occurs no more often than there are words.
proof fn lemma_occurrences_bounded(tokens: Seq<Seq<char>>, word: Seq<char>)
    ensures
        occurrences(tokens, word) <= tokens.len(),
{
    broadcast use vstd::seq_lib::group_filter_ensures;

}

/// The different words of a list are different.
pub proof fn lemma_vocabulary_is_distinct(tokens: Seq<Seq<char>>)
    ensures
        vocabulary(tokens).no_duplicates(),
    decreases tokens.len(),
{
    if tokens.len() > 0 {
        lemma_vocabulary_is_distinct(tokens.drop_last());
    }
}

/// Counts the words of a list.
pub fn term_freq(tokens: &Vec<String>) -> (freq: TermFreq)
    ensures
        freq_view(freq@) == frequencies(views(tokens@)),
{
    let mut freq: TermFreq = Vec::new();
    let mut i: usize = 0;
    assert(freq_view(freq@) =~= frequencies(views(tokens@).take(0)));
    while i < tokens.len()
        invariant
            i <= tokens@.len(),
            freq_view(freq@) == frequencies(views(tokens@).take(i as int)),
        decreases tokens@.len() - i,
    {
        let ghost seen = views(tokens@).take(i as int);
        let ghost next = views(tokens@).take(i + 1);
        let ghost token = tokens@[i as int]@;
        let ghost known = vocabulary(seen);
        let ghost before = freq@;
        assert(next =~= seen.push(token));
        assert(next.drop_last() =~= seen);
        assert(freq_view(freq@).len() == known.len());
        let mut k: usize = 0;
        while k < freq.len() && !str_eq(freq[k].word.as_str(), tokens[i].as_str())
            invariant
                i < tokens@.len(),
                token == tokens@[i as int]@,
                k <= freq@.len(),
                freq@ == before,
                known.len() == freq@.len(),
                freq_view(freq@) == frequencies(seen),
                known == vocabulary(seen),
                forall|j: int| 0 <= j < k ==> #[trigger] known[j] != token,
            decreases freq@.len() - k,
        {
            assert(freq_view(freq@)[k as int] == frequencies(seen)[k as int]);
            k += 1;
        }
        proof {
            assert forall|word: Seq<char>| #[trigger] occurrences(next, word) == occurrences(
                seen,
                word,
            ) + if token == word {
                1nat
            } else {
                0nat
            } by {
                lemma_occurrences_push(seen, token, word);
            }
        }
        if k < freq.len() {
            proof {
                assert(freq_view(freq@)[k as int] == frequencies(seen)[k as int]);
                assert(known[k as int] == token);
                lemma_occurrences_bounded(seen, token);
                lemma_vocabulary_is_distinct(seen);
            }
            let count: usize = freq[k].count + 1;
            freq[k].count = count;
            proof {
                assert forall|j: int| 0 <= j < known.len() implies #[trigger] freq_view(freq@)[j]
                    == frequencies(next)[j] by {
                    assert(freq_view(before)[j] == frequencies(seen)[j]);
                }
            }
        } else {
            proof {
                assert(!known.contains(token));
                lemma_unknown_word_does_not_occur(seen, token);
            }
            freq.push(TermCount { word: tokens[i].clone(), count: 1 });
            proof {
                assert forall|j: int| 0 <= j < known.len() implies #[trigger] freq_view(freq@)[j]
                    == frequencies(next)[j] by {
                    assert(freq_view(before)[j] == frequencies(seen)[j]);
                }
            }
        }
        assert(freq_view(freq@) =~= frequencies(next));
        i += 1;
    }
    assert(views(tokens@).take(i as int) =~= views(tokens@));
    freq
}

/// The count of a word in a frequency list, if it is listed.
pub open spec fn listed_count(freq: FreqView, word: Seq<char>) -> Option<nat>
    decreases freq.len(),
{
    if freq.len() == 0 {
        None
    } else if freq.last().0 == word {
        Some(freq.last().1)
    } else {
        listed_count(freq.drop_last(), word)
    }
}

/// The number of steps in which a word occurs.
pub open spec fn documents_with(steps: Seq<FreqView>, word: Seq<char>) -> nat {
    steps.filter(|freq: FreqView| listed_count(freq, word) is Some).len()
}

/// A word's count in one step, and the number of steps that have the word.
pub struct TermWeight {
    pub count: usize,
    pub documents: usize,
}

/// A word that two steps share: its count in the newer and in the older one,
/// and the number of steps that have the word.
pub struct SharedTerm {
    pub new_count: usize,
    pub old_count: usize,
    pub documents: usize,
}

/// An earlier step: the weights of its words, and the words that it shares with
/// the newest step.
pub struct Rival {
    pub terms: Vec<TermWeight>,
    pub shared: Vec<SharedTerm>,
}

/// Everything that the similarity of a step to the earlier ones depends on.
pub struct StepQuery {
    /// The index of the step.
    pub step_idx: usize,
    /// How many steps there are, this one counted.
    pub documents: usize,
    /// The weights of the words of this step.
    pub terms: Vec<TermWeight>,
    /// The earlier steps, in order.
    pub rivals: Vec<Rival>,
}

/// The model of a word's weight: its count and its number of steps.
pub type WeightView = (nat, nat);

/// The model of a shared word: both counts and its number of steps.
pub type SharedView = (nat, nat, nat);

/// The model of an earlier step.
pub struct RivalView {
    pub terms: Seq<WeightView>,
    pub shared: Seq<SharedView>,
}

/// The model of a query.
pub struct QueryView {
    pub step_idx: nat,
    pub documents: nat,
    pub terms: Seq<WeightView>,
    pub rivals: Seq<RivalView>,
}

/// The model of a list of weights.
pub open spec fn weights_view(terms: Seq<TermWeight>) -> Seq<WeightView> {
    terms.map_values(|term: TermWeight| (term.count as nat, term.documents as nat))
}

/// The model of a list of shared words.
pub open spec fn shared_view(shared: Seq<SharedTerm>) -> Seq<SharedView> {
    shared.map_values(
        |term: SharedTerm| (term.new_count as nat, term.old_count as nat, term.documents as nat),
    )
}

impl View for Rival {
    type V = RivalView;

    open spec fn view(&self) -> RivalView {
        RivalView { terms: weights_view(self.terms@), shared: shared_view(self.shared@) }
    }
}

impl View for StepQuery {
    type V = QueryView;

    open spec fn view(&self) -> QueryView {
        QueryView {
            step_idx: self.step_idx as nat,
            documents: self.documents as nat,
            terms: weights_view(self.terms@),
            rivals: self.rivals@.map_values(|rival: Rival| rival@),
        }
    }
}

/// The weights of the words of one step among all steps.
pub open spec fn weights(freq: FreqView, steps: Seq<FreqView>) -> Seq<WeightView> {
    freq.map_values(|term: (Seq<char>, nat)| (term.1, documents_with(steps, term.0)))
}

/// The words of the newer step that the older one has too.
pub open spec fn shared_terms(new: FreqView, old: FreqView, steps: Seq<FreqView>) -> Seq<
    SharedView,
> {
    new.filter(|term: (Seq<char>, nat)| listed_count(old, term.0) is Some).map_values(
        |term: (Seq<char>, nat)|
            (term.1, listed_count(old, term.0)->0, documents_with(steps, term.0)),
    )
}

/// The query for the last of some steps.
pub open spec fn query_of(steps: Seq<FreqView>) -> QueryView {
    QueryView {
        step_idx: (steps.len() - 1) as nat,
        documents: steps.len(),
        terms: weights(steps.last(), steps),
        rivals: steps.drop_last().map_values(
            |old: FreqView|
                RivalView {
                    terms: weights(old, steps),
                    shared: shared_terms(steps.last(), old, steps),
                },
        ),
    }
}

/// The models of a list of frequency lists.
pub open spec fn freq_views(steps: Seq<TermFreq>) -> Seq<FreqView> {
    steps.map_values(|freq: TermFreq| freq_view(freq@))
}

/// Looks a word up in a frequency list.
fn lookup(freq: &TermFreq, word: &str) -> (count: Option<usize>)
    ensures
        match count {
            Some(n) => listed_count(freq_view(freq@), word@) == Some(n as nat),
            None => listed_count(freq_view(freq@), word@) is None,
        },
{
    let mut n: usize = freq.len();
    assert(freq_view(freq@).take(n as int) =~= freq_view(freq@));
    while n > 0
        invariant
            n <= freq@.len(),
            listed_count(freq_view(freq@), word@) == listed_count(
                freq_view(freq@).take(n as int),
                word@,
            ),
        decreases n,
    {
        let ghost list = freq_view(freq@).take(n as int);
        assert(list.drop_last() =~= freq_view(freq@).take(n - 1));
        if str_eq(freq[n - 1].word.as_str(), word) {
            return Some(freq[n - 1].count);
        }
        n -= 1;
    }
    None
}

/// Counts the steps in which a word occurs.
fn count_documents(steps: &Vec<TermFreq>, word: &str) -> (n: usize)
    ensures
        n == documents_with(freq_views(steps@), word@),
        n <= steps@.len(),
{
    let ghost all = freq_views(steps@);
    let ghost has = |freq: FreqView| listed_count(freq, word@) is Some;
    let mut n: usize = 0;
    let mut i: usize = 0;
    proof {
        reveal(Seq::filter);
        assert(all.take(0).filter(has).len() == 0);
    }
    while i < steps.len()
        invariant
            all == freq_views(steps@),
            has == (|freq: FreqView| listed_count(freq, word@) is Some),
            n <= i <= steps@.len(),
            n == all.take(i as int).filter(has).len(),
        decreases steps@.len() - i,
    {
        proof {
            reveal(Seq::filter);
            assert(all.take(i + 1).drop_last() =~= all.take(i as int));
            assert(all.take(i + 1).last() == freq_view(steps@[i as int]@));
        }
        if lookup(&steps[i], word).is_some() {
            n += 1;
        }
        i += 1;
    }
    assert(all.take(i as int) =~= all);
    n
}

/// Weighs the words of one step.
fn weigh(freq: &TermFreq, steps: &Vec<TermFreq>) -> (terms: Vec<TermWeight>)
    ensures
        weights_view(terms@) == weights(freq_view(freq@), freq_views(steps@)),
{
    let mut terms: Vec<TermWeight> = Vec::new();
    let mut i: usize = 0;
    while i < freq.len()
        invariant
            i <= freq@.len(),
            terms@.len() == i,
            forall|j: int|
                0 <= j < i ==> #[trigger] weights_view(terms@)[j] == weights(
                    freq_view(freq@),
                    freq_views(steps@),
                )[j],
        decreases freq@.len() - i,
    {
        let ghost before = terms@;
        let documents: usize = count_documents(steps, freq[i].word.as_str());
        terms.push(TermWeight { count: freq[i].count, documents });
        proof {
            assert forall|j: int| 0 <= j < i + 1 implies #[trigger] weights_view(terms@)[j]
                == weights(freq_view(freq@), freq_views(steps@))[j] by {
                if j < i {
                    assert(weights_view(before)[j] == weights_view(terms@)[j]);
                }
            }
        }
        i += 1;
    }
    assert(weights_view(terms@) =~= weights(freq_view(freq@), freq_views(steps@)));
    terms
}

/// Finds the words of the newer step that the older one has too.
fn find_shared(new: &TermFreq, old: &TermFreq, steps: &Vec<TermFreq>) -> (shared: Vec<SharedTerm>)
    ensures
        shared_view(shared@) == shared_terms(
            freq_view(new@),
            freq_view(old@),
            freq_views(steps@),
        ),
{
    let ghost list = freq_view(new@);
    let ghost rest = freq_view(old@);
    let ghost all = freq_views(steps@);
    let mut shared: Vec<SharedTerm> = Vec::new();
    let mut i: usize = 0;
    proof {
        reveal(Seq::filter);
        assert(shared_view(shared@) =~= shared_terms(list.take(0), rest, all));
    }
    while i < new.len()
        invariant
            list == freq_view(new@),
            rest == freq_view(old@),
            all == freq_views(steps@),
            i <= new@.len(),
            shared_view(shared@) == shared_terms(list.take(i as int), rest, all),
        decreases new@.len() - i,
    {
        let ghost term = list[i as int];
        proof {
            reveal(Seq::filter);
            assert(list.take(i + 1).drop_last() =~= list.take(i as int));
            assert(list.take(i + 1).last() == term);
        }
        let ghost before = shared@;
        match lookup(old, new[i].word.as_str()) {
            Some(old_count) => {
                let documents: usize = count_documents(steps, new[i].word.as_str());
                shared.push(SharedTerm { new_count: new[i].count, old_count, documents });
                assert(shared_view(shared@) =~= shared_view(before).push(
                    (term.1, old_count as nat, documents as nat),
                ));
                assert(shared_terms(list.take(i + 1), rest, all) =~= shared_terms(
                    list.take(i as int),
                    rest,
                    all,
                ).push((term.1, listed_count(rest, term.0)->0, documents_with(all, term.0))));
            },
            None => {
                assert(shared_terms(list.take(i + 1), rest, all) =~= shared_terms(
                    list.take(i as int),
                    rest,
                    all,
                ));
            },
        }
        i += 1;
    }
    assert(list.take(i as int) =~= list);
    shared
}

/// Puts together what the similarity of the last step to the earlier ones
/// depends on.
pub fn make_query(steps: &Vec<TermFreq>) -> (query: StepQuery)
    requires
        steps@.len() > 0,
    ensures
        query@ == query_of(freq_views(steps@)),
{
    let ghost all = freq_views(steps@);
    let last: usize = steps.len() - 1;
    let mut rivals: Vec<Rival> = Vec::new();
    let mut i: usize = 0;
    while i < last
        invariant
            all == freq_views(steps@),
            steps@.len() == last + 1,
            i <= last,
            rivals@.len() == i,
            forall|j: int| 0 <= j < i ==> (#[trigger] rivals@[j])@ == query_of(all).rivals[j],
        decreases last - i,
    {
        let terms = weigh(&steps[i], steps);
        let shared = find_shared(&steps[last], &steps[i], steps);
        let rival = Rival { terms, shared };
        assert(rival@ == query_of(all).rivals[i as int]);
        rivals.push(rival);
        i += 1;
    }
    let query = StepQuery {
        step_idx: last,
        documents: steps.len(),
        terms: weigh(&steps[last], steps),
        rivals,
    };
    assert(query@.rivals =~= query_of(all).rivals);
    query
}

/// A word whose entry stands in a list of different words is listed with the
/// count of that entry.
proof fn lemma_entry_is_listed(freq: FreqView, i: int)
    requires
        0 <= i < freq.len(),
        forall|j: int, k: int|
            0 <= j < k < freq.len() ==> (#[trigger] freq[j]).0 != (#[trigger] freq[k]).0,
    ensures
        listed_count(freq, freq[i].0) == Some(freq[i].1),
    decreases freq.len(),
{
    if i < freq.len() - 1 {
        assert(freq[i].0 != freq[freq.len() - 1].0);
        lemma_entry_is_listed(freq.drop_last(), i);
    }
}

/// A filter that everything passes changes nothing.
proof fn lemma_filter_passes_all(freq: FreqView, keep: spec_fn((Seq<char>, nat)) -> bool)
    requires
        forall|i: int| 0 <= i < freq.len() ==> keep(#[trigger] freq[i]),
    ensures
        freq.filter(keep) == freq,
    decreases freq.len(),
{
    reveal(Seq::filter);
    if freq.len() > 0 {
        lemma_filter_passes_all(freq.drop_last(), keep);
        assert(keep(freq[freq.len() - 1]));
        assert(freq.drop_last().push(freq.last()) =~= freq);
    }
}

/// A filter that nothing passes leaves nothing.
proof fn lemma_filter_passes_none(freq: FreqView, keep: spec_fn((Seq<char>, nat)) -> bool)
    requires
        forall|i: int| 0 <= i < freq.len() ==> !keep(#[trigger] freq[i]),
    ensures
        freq.filter(keep).len() == 0,
    decreases freq.len(),
{
    reveal(Seq::filter);
    if freq.len() > 0 {
        lemma_filter_passes_none(freq.drop_last(), keep);
        assert(!keep(freq[freq.len() - 1]));
    }
}

/// A word is in the vocabulary of a list exactly when it is in the list, and then it
/// occurs.
pub proof fn lemma_vocabulary_is_what_occurs(tokens: Seq<Seq<char>>, word: Seq<char>)
    ensures
        vocabulary(tokens).contains(word) <==> tokens.contains(word),
        vocabulary(tokens).contains(word) <==> occurrences(tokens, word) > 0,
    decreases tokens.len(),
{
    reveal(Seq::filter);
    if tokens.len() > 0 {
        let before = tokens.drop_last();
        let known = vocabulary(before);
        let all = vocabulary(tokens);
        lemma_vocabulary_is_what_occurs(before, word);
        assert(before.push(tokens.last()) =~= tokens);
        lemma_occurrences_push(before, tokens.last(), word);
        if known.contains(word) {
            let i = known.index_of(word);
            assert(all[i] == word);
        }
        if before.contains(word) {
            let i = before.index_of(word);
            assert(tokens[i] == word);
        }
        if tokens.last() == word {
            assert(tokens[tokens.len() - 1] == word);
            if !known.contains(word) {
                assert(all[all.len() - 1] == word);
            }
        }
        if all.contains(word) {
            let i = all.index_of(word);
            if i < known.len() {
                assert(known[i] == word);
            }
        }
        if tokens.contains(word) {
            let i = tokens.index_of(word);
            if i < before.len() {
                assert(before[i] == word);
            }
        }
    }
}

/// The count of a word in the frequency list of some words: how often it occurs,
/// if it does.
pub proof fn lemma_listed_count_is_occurrences(tokens: Seq<Seq<char>>, word: Seq<char>)
    ensures
        listed_count(frequencies(tokens), word) == if occurrences(tokens, word) > 0 {
            Some(occurrences(tokens, word))
        } else {
            None
        },
{
    let freq = frequencies(tokens);
    let known = vocabulary(tokens);
    lemma_vocabulary_is_distinct(tokens);
    lemma_vocabulary_is_what_occurs(tokens, word);
    if known.contains(word) {
        let i = known.index_of(word);
        lemma_entry_is_listed(freq, i);
    } else {
        assert forall|i: int| 0 <= i < freq.len() implies (#[trigger] freq[i]).0 != word by {
            assert(known[i] == freq[i].0);
        }
        lemma_absent_is_not_listed(freq, word);
    }
}

/// A word without an entry is not listed.
proof fn lemma_absent_is_not_listed(freq: FreqView, word: Seq<char>)
    requires
        forall|i: int| 0 <= i < freq.len() ==> (#[trigger] freq[i]).0 != word,
    ensures
        listed_count(freq, word) is None,
    decreases freq.len(),
{
    if freq.len() > 0 {
        assert(freq[freq.len() - 1].0 != word);
        lemma_absent_is_not_listed(freq.drop_last(), word);
    }
}

/// Do two lists of words hold the same words equally often, in whatever order?
pub open spec fn same_words(a: Seq<Seq<char>>, b: Seq<Seq<char>>) -> bool {
    forall|word: Seq<char>| #[trigger] occurrences(a, word) == occurrences(b, word)
}

/// The weights of some words are fixed by how often each occurs.
pub open spec fn weights_of(words: Seq<Seq<char>>, tokens: Seq<Seq<char>>, steps: Seq<FreqView>) -> Seq<
    WeightView,
> {
    words.map_values(|word: Seq<char>| (occurrences(tokens, word), documents_with(steps, word)))
}

/// A step that says the same words equally often as an earlier one, in whatever
/// order, shares every word with it, with the same weights on both sides; and the
/// earlier step has no other words and no other weights.
pub proof fn law_restated_step_shares_everything(
    new: Seq<Seq<char>>,
    old: Seq<Seq<char>>,
    steps: Seq<FreqView>,
)
    requires
        same_words(new, old),
    ensures
        shared_terms(frequencies(new), frequencies(old), steps) == weights(
            frequencies(new),
            steps,
        ).map_values(|weight: WeightView| (weight.0, weight.0, weight.1)),
        weights(frequencies(new), steps) == weights_of(vocabulary(new), new, steps),
        weights(frequencies(old), steps) == weights_of(vocabulary(old), new, steps),
        vocabulary(old).to_multiset() == vocabulary(new).to_multiset(),
{
    let a = frequencies(new);
    let b = frequencies(old);
    let keep = |term: (Seq<char>, nat)| listed_count(b, term.0) is Some;
    assert forall|i: int| 0 <= i < a.len() implies listed_count(b, (#[trigger] a[i]).0) == Some(
        a[i].1,
    ) by {
        let word = vocabulary(new)[i];
        assert(vocabulary(new).contains(word));
        lemma_vocabulary_is_what_occurs(new, word);
        lemma_listed_count_is_occurrences(old, word);
        assert(occurrences(new, word) == occurrences(old, word));
    }
    lemma_filter_passes_all(a, keep);
    assert(shared_terms(a, b, steps) =~= weights(a, steps).map_values(
        |weight: WeightView| (weight.0, weight.0, weight.1),
    ));
    assert(weights(a, steps) =~= weights_of(vocabulary(new), new, steps));
    assert forall|i: int| 0 <= i < b.len() implies #[trigger] weights(b, steps)[i] == weights_of(
        vocabulary(old),
        new,
        steps,
    )[i] by {
        assert(occurrences(new, vocabulary(old)[i]) == occurrences(old, vocabulary(old)[i]));
    }
    assert(weights(b, steps) =~= weights_of(vocabulary(old), new, steps));
    lemma_same_words_same_vocabulary(new, old);
}

/// Lists with the same words have the same vocabulary, up to order.
proof fn lemma_same_words_same_vocabulary(a: Seq<Seq<char>>, b: Seq<Seq<char>>)
    requires
        same_words(a, b),
    ensures
        vocabulary(b).to_multiset() == vocabulary(a).to_multiset(),
{
    broadcast use vstd::seq_lib::group_to_multiset_ensures;

    let va = vocabulary(a);
    let vb = vocabulary(b);
    lemma_vocabulary_is_distinct(a);
    lemma_vocabulary_is_distinct(b);
    va.lemma_multiset_has_no_duplicates();
    vb.lemma_multiset_has_no_duplicates();
    assert forall|word: Seq<char>| #[trigger]
        va.to_multiset().count(word) == vb.to_multiset().count(word) by {
        assert(occurrences(a, word) == occurrences(b, word));
        lemma_vocabulary_is_what_occurs(a, word);
        lemma_vocabulary_is_what_occurs(b, word);
        assert(va.contains(word) == vb.contains(word));
        assert(va.contains(word) <==> va.to_multiset().count(word) > 0);
        assert(vb.contains(word) <==> vb.to_multiset().count(word) > 0);
        if va.contains(word) {
            assert(va.to_multiset().contains(word));
            assert(vb.to_multiset().contains(word));
        }
    }
    assert(va.to_multiset() =~= vb.to_multiset());
}

/// Steps without a word in common share nothing.
pub proof fn law_unrelated_steps_share_nothing(
    new: Seq<Seq<char>>,
    old: Seq<Seq<char>>,
    steps: Seq<FreqView>,
)
    requires
        forall|i: int| 0 <= i < new.len() ==> !old.contains(#[trigger] new[i]),
    ensures
        shared_terms(frequencies(new), frequencies(old), steps).len() == 0,
{
    let a = frequencies(new);
    let b = frequencies(old);
    let keep = |term: (Seq<char>, nat)| listed_count(b, term.0) is Some;
    assert forall|i: int| 0 <= i < a.len() implies !keep(#[trigger] a[i]) by {
        let word = vocabulary(new)[i];
        assert(vocabulary(new).contains(word));
        lemma_vocabulary_is_what_occurs(new, word);
        let k = new.index_of(word);
        assert(!old.contains(new[k]));
        lemma_vocabulary_is_what_occurs(old, word);
        lemma_listed_count_is_occurrences(old, word);
    }
    lemma_filter_passes_none(a, keep);
}

/// The number of steps that have a word is at least one for a word of any of the
/// steps, and at most the number of steps.
pub proof fn law_document_counts_are_in_range(steps: Seq<FreqView>, word: Seq<char>)
    ensures
        documents_with(steps, word) <= steps.len(),
        (exists|i: int| 0 <= i < steps.len() && listed_count(#[trigger] steps[i], word) is Some)
            ==> documents_with(steps, word) >= 1,
    decreases steps.len(),
{
    reveal(Seq::filter);
    if steps.len() > 0 {
        law_document_counts_are_in_range(steps.drop_last(), word);
        if exists|i: int| 0 <= i < steps.len() && listed_count(#[trigger] steps[i], word) is Some {
            let i = choose|i: int|
                0 <= i < steps.len() && listed_count(#[trigger] steps[i], word) is Some;
            if i < steps.len() - 1 {
                assert(steps.drop_last()[i] == steps[i]);
            }
        }
    }
}

/// The squared length of a step's vector of words, each counted and weighed by the
/// number of steps that have it.
pub open spec fn squared_length(terms: Seq<WeightView>, weigh: spec_fn(nat) -> int) -> int
    decreases terms.len(),
{
    if terms.len() == 0 {
        0
    } else {
        let (count, documents) = terms.last();
        squared_length(terms.drop_last(), weigh) + (count * weigh(documents)) * (count * weigh(
            documents,
        ))
    }
}

/// The product of two steps' vectors over the words that they share.
pub open spec fn dot_product(shared: Seq<SharedView>, weigh: spec_fn(nat) -> int) -> int
    decreases shared.len(),
{
    if shared.len() == 0 {
        0
    } else {
        let (new_count, old_count, documents) = shared.last();
        dot_product(shared.drop_last(), weigh) + (new_count * weigh(documents)) * (old_count
            * weigh(documents))
    }
}

/// A vector's product with itself is its squared length.
proof fn lemma_product_with_itself(terms: Seq<WeightView>, weigh: spec_fn(nat) -> int)
    ensures
        dot_product(
            terms.map_values(|weight: WeightView| (weight.0, weight.0, weight.1)),
            weigh,
        ) == squared_length(terms, weigh),
    decreases terms.len(),
{
    let twice = |weight: WeightView| (weight.0, weight.0, weight.1);
    if terms.len() > 0 {
        lemma_product_with_itself(terms.drop_last(), weigh);
        assert(terms.map_values(twice).drop_last() =~= terms.drop_last().map_values(twice));
    }
}

/// The squared length of a vector is a sum over its words.
proof fn lemma_length_is_a_sum(
    words: Seq<Seq<char>>,
    tokens: Seq<Seq<char>>,
    steps: Seq<FreqView>,
    weigh: spec_fn(nat) -> int,
)
    ensures
        squared_length(weights_of(words, tokens, steps), weigh) == words.fold_left(
            0,
            |sum: int, word: Seq<char>| sum + square_of(tokens, steps, weigh, word),
        ),
    decreases words.len(),
{
    if words.len() > 0 {
        let fewer = words.drop_last();
        lemma_length_is_a_sum(fewer, tokens, steps, weigh);
        assert(weights_of(words, tokens, steps).drop_last() =~= weights_of(fewer, tokens, steps));
    }
}

/// What one word adds to the squared length of a vector.
spec fn square_of(
    tokens: Seq<Seq<char>>,
    steps: Seq<FreqView>,
    weigh: spec_fn(nat) -> int,
    word: Seq<char>,
) -> int {
    let part = occurrences(tokens, word) * weigh(documents_with(steps, word));
    part * part
}

/// However words are weighed by the number of steps that have them, the vectors of
/// a step and of one that says the same words, in whatever order, are the same: the
/// product of the two is the squared length of either, so that the cosine of the
/// angle between them is one.
pub proof fn law_restated_step_has_the_same_vector(
    new: Seq<Seq<char>>,
    old: Seq<Seq<char>>,
    steps: Seq<FreqView>,
    weigh: spec_fn(nat) -> int,
)
    requires
        same_words(new, old),
    ensures
        dot_product(shared_terms(frequencies(new), frequencies(old), steps), weigh)
            == squared_length(weights(frequencies(new), steps), weigh),
        squared_length(weights(frequencies(old), steps), weigh) == squared_length(
            weights(frequencies(new), steps),
            weigh,
        ),
{
    law_restated_step_shares_everything(new, old, steps);
    lemma_product_with_itself(weights(frequencies(new), steps), weigh);
    lemma_length_is_a_sum(vocabulary(new), new, steps, weigh);
    lemma_length_is_a_sum(vocabulary(old), new, steps, weigh);
    let sum = |sum: int, word: Seq<char>| sum + square_of(new, steps, weigh, word);
    vstd::seq_lib::lemma_fold_left_permutation(vocabulary(new), vocabulary(old), sum, 0);
}

/// However words are weighed, the vectors of steps without a word in common have
/// the product zero, so that the cosine of the angle between them is zero.
pub proof fn law_unrelated_steps_have_no_product(
    new: Seq<Seq<char>>,
    old: Seq<Seq<char>>,
    steps: Seq<FreqView>,
    weigh: spec_fn(nat) -> int,
)
    requires
        forall|i: int| 0 <= i < new.len() ==> !old.contains(#[trigger] new[i]),
    ensures
        dot_product(shared_terms(frequencies(new), frequencies(old), steps), weigh) == 0,
{
    law_unrelated_steps_share_nothing(new, old, steps);
}

/// The squared length of a vector is not negative, and positive if a word of it
/// counts for something.
proof fn lemma_length_is_positive(terms: Seq<WeightView>, weigh: spec_fn(nat) -> int)
    requires
        forall|i: int|
            0 <= i < terms.len() ==> (#[trigger] terms[i]).0 > 0 && weigh(terms[i].1) > 0,
    ensures
        squared_length(terms, weigh) >= 0,
        terms.len() > 0 ==> squared_length(terms, weigh) > 0,
    decreases terms.len(),
{
    if terms.len() > 0 {
        let fewer = terms.drop_last();
        assert forall|i: int| 0 <= i < fewer.len() implies (#[trigger] fewer[i]).0 > 0 && weigh(
            fewer[i].1,
        ) > 0 by {
            assert(fewer[i] == terms[i]);
        }
        lemma_length_is_positive(fewer, weigh);
        assert(terms[terms.len() - 1].0 > 0);
        let count: int = terms.last().0 as int;
        let weight: int = weigh(terms.last().1);
        assert((count * weight) * (count * weight) > 0) by (nonlinear_arith)
            requires
                count > 0,
                weight > 0,
        ;
    }
}

/// The vector of a step with any content words is not zero, if every word that a
/// step has counts for something.
pub proof fn law_vectors_of_steps_are_not_zero(
    tokens: Seq<Seq<char>>,
    steps: Seq<FreqView>,
    weigh: spec_fn(nat) -> int,
)
    requires
        tokens.len() > 0,
        steps.contains(frequencies(tokens)),
        forall|documents: nat| documents >= 1 ==> #[trigger] weigh(documents) > 0,
    ensures
        squared_length(weights(frequencies(tokens), steps), weigh) > 0,
{
    let freq = frequencies(tokens);
    let terms = weights(freq, steps);
    let known = vocabulary(tokens);
    let at = steps.index_of(freq);
    assert(tokens.contains(tokens[0]));
    lemma_vocabulary_is_what_occurs(tokens, tokens[0]);
    assert(known.len() > 0);
    assert forall|i: int| 0 <= i < terms.len() implies (#[trigger] terms[i]).0 > 0 && weigh(
        terms[i].1,
    ) > 0 by {
        let word = known[i];
        assert(known.contains(word));
        lemma_vocabulary_is_what_occurs(tokens, word);
        lemma_listed_count_is_occurrences(tokens, word);
        assert(listed_count(steps[at], word) is Some);
        law_document_counts_are_in_range(steps, word);
    }
    lemma_length_is_positive(terms, weigh);
}

} // verus!
