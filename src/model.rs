use vstd::prelude::*;

verus! {

/// A token as the model sees it: its characters.
pub type Token = Seq<char>;

/// A state: the tokens of a window, in order.
pub type StateSeq = Seq<Seq<char>>;

/// The mathematical transition table: each state maps to its successors,
/// one entry per observation, in the order they were observed.
pub type TableMap = Map<Seq<Seq<char>>, Seq<Seq<char>>>;

/// The characters of each string of a sequence.
pub open spec fn words_view(v: Seq<String>) -> Seq<Seq<char>> {
    v.map_values(|w: String| w@)
}

/// The transitions that one tokenised sentence contributes with windows of
/// `k` tokens: for each `i` with `i + k < len`, the window starting at `i`
/// and the token that follows it.
pub open spec fn window_observations(words: Seq<Seq<char>>, k: nat) -> Seq<(StateSeq, Token)> {
    Seq::new(
        if words.len() > k { (words.len() - k) as nat } else { 0 },
        |i: int| (words.subrange(i, i + k), words[i + k]),
    )
}

/// The transitions of a whole tokenised corpus, sentence after sentence.
pub open spec fn corpus_observations(corpus: Seq<Seq<Seq<char>>>, k: nat) -> Seq<(StateSeq, Token)>
    decreases corpus.len(),
{
    if corpus.len() == 0 {
        Seq::empty()
    } else {
        corpus_observations(corpus.drop_last(), k) + window_observations(corpus.last(), k)
    }
}

/// One observation appended to the successor list of its state, the entry
/// being created when the state is new.
pub open spec fn record(m: TableMap, o: (StateSeq, Token)) -> TableMap {
    if m.contains_key(o.0) {
        m.insert(o.0, m[o.0].push(o.1))
    } else {
        m.insert(o.0, seq![o.1])
    }
}

/// Observations recorded one after another.
pub open spec fn record_all(m: TableMap, obs: Seq<(StateSeq, Token)>) -> TableMap
    decreases obs.len(),
{
    if obs.len() == 0 {
        m
    } else {
        record(record_all(m, obs.drop_last()), obs.last())
    }
}

/// The table after training `m` on a tokenised corpus with windows of `k` tokens.
pub open spec fn trained(m: TableMap, corpus: Seq<Seq<Seq<char>>>, k: nat) -> TableMap {
    record_all(m, corpus_observations(corpus, k))
}

/// Every key holds exactly `k` tokens and every successor list is non-empty.
pub open spec fn table_consistent(m: TableMap, k: nat) -> bool {
    forall|s: StateSeq| #[trigger] m.contains_key(s) ==> s.len() == k && m[s].len() > 0
}

/// The tokens joined by single spaces.
pub open spec fn join_spaces(words: Seq<Seq<char>>) -> Seq<char>
    decreases words.len(),
{
    if words.len() == 0 {
        Seq::empty()
    } else if words.len() == 1 {
        words[0]
    } else {
        join_spaces(words.drop_last()) + seq![' '] + words.last()
    }
}

pub proof fn lemma_record_all_split(m: TableMap, a: Seq<(StateSeq, Token)>, b: Seq<(StateSeq, Token)>)
    ensures
        record_all(m, a + b) == record_all(record_all(m, a), b),
    decreases b.len(),
{
    if b.len() == 0 {
        assert(a + b =~= a);
    } else {
        assert((a + b).drop_last() =~= a + b.drop_last());
        assert((a + b).last() == b.last());
        lemma_record_all_split(m, a, b.drop_last());
    }
}

pub proof fn lemma_corpus_observations_split(a: Seq<Seq<Seq<char>>>, b: Seq<Seq<Seq<char>>>, k: nat)
    ensures
        corpus_observations(a + b, k) == corpus_observations(a, k) + corpus_observations(b, k),
    decreases b.len(),
{
    if b.len() == 0 {
        assert(a + b =~= a);
        assert(corpus_observations(a, k) + corpus_observations(b, k) =~= corpus_observations(a, k));
    } else {
        assert((a + b).drop_last() =~= a + b.drop_last());
        assert((a + b).last() == b.last());
        lemma_corpus_observations_split(a, b.drop_last(), k);
        assert(corpus_observations(a + b, k) =~= corpus_observations(a, k) + corpus_observations(b, k));
    }
}

/// Training is additive: training on `a` and then on `b` gives the table
/// that training once on `a` followed by `b` gives.
pub proof fn lemma_train_additive(m: TableMap, a: Seq<Seq<Seq<char>>>, b: Seq<Seq<Seq<char>>>, k: nat)
    ensures
        trained(trained(m, a, k), b, k) == trained(m, a + b, k),
{
    lemma_corpus_observations_split(a, b, k);
    lemma_record_all_split(m, corpus_observations(a, k), corpus_observations(b, k));
}

/// Recording observations whose states hold `k` tokens keeps every key at
/// `k` tokens and every successor list non-empty.
pub proof fn lemma_record_all_consistent(m: TableMap, obs: Seq<(StateSeq, Token)>, k: nat)
    requires
        table_consistent(m, k),
        forall|i: int| 0 <= i < obs.len() ==> (#[trigger] obs[i]).0.len() == k,
    ensures
        table_consistent(record_all(m, obs), k),
    decreases obs.len(),
{
    if obs.len() > 0 {
        lemma_record_all_consistent(m, obs.drop_last(), k);
        assert(obs.last() == obs[obs.len() - 1]);
    }
}

pub proof fn lemma_corpus_observations_width(corpus: Seq<Seq<Seq<char>>>, k: nat)
    ensures
        forall|i: int|
            0 <= i < corpus_observations(corpus, k).len()
                ==> (#[trigger] corpus_observations(corpus, k)[i]).0.len() == k,
    decreases corpus.len(),
{
    if corpus.len() > 0 {
        lemma_corpus_observations_width(corpus.drop_last(), k);
        let prev = corpus_observations(corpus.drop_last(), k);
        let w = window_observations(corpus.last(), k);
        assert forall|i: int| 0 <= i < w.len() implies (#[trigger] w[i]).0.len() == k by {}
        assert forall|i: int|
            0 <= i < corpus_observations(corpus, k).len() implies (
            #[trigger] corpus_observations(corpus, k)[i]).0.len() == k by {
            if i >= prev.len() {
                assert(corpus_observations(corpus, k)[i] == w[i - prev.len()]);
            }
        }
    }
}

/// Every key of a trained table holds exactly `k` tokens, and every
/// successor list is non-empty.
pub proof fn lemma_trained_consistent(m: TableMap, corpus: Seq<Seq<Seq<char>>>, k: nat)
    requires
        table_consistent(m, k),
    ensures
        table_consistent(trained(m, corpus, k), k),
{
    lemma_corpus_observations_width(corpus, k);
    lemma_record_all_consistent(m, corpus_observations(corpus, k), k);
}

} // verus!
