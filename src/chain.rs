use vstd::prelude::*;

use vstd::arithmetic::div_mod::lemma_small_mod;

use crate::model::{
    corpus_observations, lemma_train_additive, lemma_trained_consistent, record, record_all, table_consistent, trained,
    window_observations, words_view, join_spaces, StateSeq, TableMap, Token,
};
use crate::outside::{
    char_is_uppercase, draw_below, first_char, fresh_rng, is_upper, seeded_rng, split_tokens,
    whitespace_tokens,
};

verus! {

/// One row of the transition table: a state and the successors observed after it.
#[derive(Clone)]
pub struct Transition {
    pub state: Vec<String>,
    pub successors: Vec<String>,
}

impl Transition {
    pub open spec fn key(&self) -> StateSeq {
        words_view(self.state@)
    }

    pub open spec fn succ(&self) -> Seq<Token> {
        words_view(self.successors@)
    }
}

/// The conditions under which the chain refuses a request.
#[derive(Debug, PartialEq, Eq, Structural, Clone, Copy)]
pub enum ChainError {
    /// No state of the table begins with an uppercase letter.
    NoStartState,
    /// Training asked for a window size other than the one already fixed.
    InconsistentRetraining,
    /// A completion went on for more steps than the walk allows.
    WalkTooLong,
    /// A saved table is not a valid table for its window size.
    InvalidSaved,
}

/// The table that a sequence of rows stands for.
pub open spec fn entries_map(e: Seq<Transition>) -> TableMap
    decreases e.len(),
{
    if e.len() == 0 {
        Map::empty()
    } else {
        entries_map(e.drop_last()).insert(e.last().key(), e.last().succ())
    }
}

/// No two rows share a state.
pub open spec fn keys_unique(e: Seq<Transition>) -> bool {
    forall|i: int, j: int| 0 <= i < j < e.len() ==> (#[trigger] e[i]).key() != (#[trigger] e[j]).key()
}

pub proof fn lemma_entries_map_contains(e: Seq<Transition>, s: StateSeq)
    ensures
        entries_map(e).contains_key(s) <==> exists|i: int| 0 <= i < e.len() && (#[trigger] e[i]).key() == s,
    decreases e.len(),
{
    if e.len() > 0 {
        lemma_entries_map_contains(e.drop_last(), s);
        if entries_map(e).contains_key(s) && s != e.last().key() {
            let i = choose|i: int| 0 <= i < e.len() - 1 && (#[trigger] e.drop_last()[i]).key() == s;
            assert(e[i] == e.drop_last()[i]);
        }
        if exists|i: int| 0 <= i < e.len() && (#[trigger] e[i]).key() == s {
            let i = choose|i: int| 0 <= i < e.len() && (#[trigger] e[i]).key() == s;
            if i < e.len() - 1 {
                assert(e.drop_last()[i] == e[i]);
            }
        }
    }
}

pub proof fn lemma_entries_map_at(e: Seq<Transition>, i: int)
    requires
        keys_unique(e),
        0 <= i < e.len(),
    ensures
        entries_map(e).contains_key(e[i].key()),
        entries_map(e)[e[i].key()] == e[i].succ(),
    decreases e.len(),
{
    if i < e.len() - 1 {
        assert(e.drop_last()[i] == e[i]);
        lemma_entries_map_at(e.drop_last(), i);
        assert(e[i].key() != e[e.len() - 1].key());
    }
}

pub proof fn lemma_entries_map_update(e: Seq<Transition>, i: int, t: Transition)
    requires
        keys_unique(e),
        0 <= i < e.len(),
        t.key() == e[i].key(),
    ensures
        keys_unique(e.update(i, t)),
        entries_map(e.update(i, t)) == entries_map(e).insert(t.key(), t.succ()),
    decreases e.len(),
{
    let u = e.update(i, t);
    assert forall|a: int, b: int| 0 <= a < b < u.len() implies (#[trigger] u[a]).key() != (#[trigger] u[b]).key() by {
        assert(e[a].key() != e[b].key());
    }
    if i == e.len() - 1 {
        assert(u.drop_last() =~= e.drop_last());
        assert(entries_map(u) =~= entries_map(e).insert(t.key(), t.succ()));
    } else {
        assert(u.drop_last() =~= e.drop_last().update(i, t));
        lemma_entries_map_update(e.drop_last(), i, t);
        assert(e[i].key() != e[e.len() - 1].key());
        assert(entries_map(u) =~= entries_map(e).insert(t.key(), t.succ()));
    }
}

pub proof fn lemma_entries_map_push(e: Seq<Transition>, t: Transition)
    requires
        keys_unique(e),
        !entries_map(e).contains_key(t.key()),
    ensures
        keys_unique(e.push(t)),
        entries_map(e.push(t)) == entries_map(e).insert(t.key(), t.succ()),
{
    let u = e.push(t);
    assert(u.drop_last() =~= e);
    assert forall|a: int, b: int| 0 <= a < b < u.len() implies (#[trigger] u[a]).key() != (#[trigger] u[b]).key() by {
        if b == e.len() {
            lemma_entries_map_contains(e, t.key());
            assert(u[a] == e[a]);
        } else {
            assert(e[a].key() != e[b].key());
        }
    }
}

/// The variable-order Markov chain: its window size, its transition table
/// and the random source its walks draw from.
#[derive(Clone)]
pub struct MarkovChain {
    pub state_map: Vec<Transition>,
    rng: rand::rngs::StdRng,
    state_size: usize,
}

/// Two token vectors hold the same tokens.
fn same_tokens(a: &Vec<String>, b: &Vec<String>) -> (r: bool)
    ensures
        r == (words_view(a@) == words_view(b@)),
{
    if a.len() != b.len() {
        assert(words_view(a@).len() != words_view(b@).len());
        return false;
    }
    let mut i: usize = 0;
    while i < a.len()
        invariant
            a.len() == b.len(),
            0 <= i <= a.len(),
            forall|j: int| 0 <= j < i ==> a@[j]@ == b@[j]@,
        decreases a.len() - i,
    {
        if a[i] != b[i] {
            assert(words_view(a@)[i as int] != words_view(b@)[i as int]);
            return false;
        }
        i = i + 1;
    }
    assert(words_view(a@) =~= words_view(b@));
    true
}

/// A copy of a token vector.
fn copy_tokens(v: &Vec<String>, from: usize, to: usize) -> (r: Vec<String>)
    requires
        from <= to <= v.len(),
    ensures
        words_view(r@) == words_view(v@).subrange(from as int, to as int),
{
    let mut r: Vec<String> = Vec::new();
    let mut i: usize = from;
    while i < to
        invariant
            from <= i <= to <= v.len(),
            words_view(r@) == words_view(v@).subrange(from as int, i as int),
        decreases to - i,
    {
        let w = v[i].clone();
        let ghost r0 = r@;
        r.push(w);
        assert(r@ == r0.push(w));
        assert(words_view(r@) =~= words_view(r0).push(w@));
        assert(words_view(r@) =~= words_view(v@).subrange(from as int, i + 1));
        i = i + 1;
    }
    r
}

impl MarkovChain {
    /// The transition table as a map from states to successor lists.
    pub closed spec fn table(&self) -> TableMap {
        entries_map(self.state_map@)
    }

    /// The rows of the table, in the order their states were first seen.
    pub closed spec fn rows(&self) -> Seq<Transition> {
        self.state_map@
    }

    /// The window size; zero before any training.
    pub closed spec fn order(&self) -> nat {
        self.state_size as nat
    }

    /// The rows have distinct states, every state holds `order()` tokens,
    /// every successor list is non-empty, and an untrained chain has no rows.
    pub closed spec fn wf(&self) -> bool {
        &&& keys_unique(self.state_map@)
        &&& table_consistent(self.table(), self.order())
        &&& self.state_size == 0 ==> self.state_map@.len() == 0
    }

    /// The window size.
    pub fn state_size(&self) -> (r: usize)
        ensures
            r == self.order(),
    {
        self.state_size
    }

    /// An untrained chain drawing from an operating-system seeded generator.
    pub fn new() -> (r: MarkovChain)
        ensures
            r.wf(),
            r.order() == 0,
            r.table() == TableMap::empty(),
    {
        MarkovChain { state_map: Vec::new(), rng: fresh_rng(), state_size: 0 }
    }

    /// An untrained chain whose walks are fixed by `seed`.
    pub fn with_seed(seed: u64) -> (r: MarkovChain)
        ensures
            r.wf(),
            r.order() == 0,
            r.table() == TableMap::empty(),
    {
        MarkovChain { state_map: Vec::new(), rng: seeded_rng(seed), state_size: 0 }
    }

    /// The row that holds `state`, if any.
    fn find_state(&self, state: &Vec<String>) -> (r: Option<usize>)
        ensures
            match r {
                Some(i) => i < self.state_map@.len() && self.state_map@[i as int].key() == words_view(state@),
                None => forall|j: int| 0 <= j < self.state_map@.len() ==> (#[trigger] self.state_map@[j]).key() != words_view(state@),
            },
    {
        let mut i: usize = 0;
        while i < self.state_map.len()
            invariant
                0 <= i <= self.state_map@.len(),
                forall|j: int| 0 <= j < i ==> (#[trigger] self.state_map@[j]).key() != words_view(state@),
            decreases self.state_map@.len() - i,
        {
            if same_tokens(&self.state_map[i].state, state) {
                return Some(i);
            }
            i = i + 1;
        }
        None
    }

    /// Appends `next` to the successors of `state`, creating its row when new.
    fn record_transition(&mut self, state: Vec<String>, next: String)
        requires
            keys_unique(old(self).state_map@),
        ensures
            keys_unique(final(self).state_map@),
            final(self).table() == record(old(self).table(), (words_view(state@), next@)),
            final(self).state_size == old(self).state_size,
    {
        let ghost key = words_view(state@);
        match self.find_state(&state) {
            Some(i) => {
                proof {
                    lemma_entries_map_at(self.state_map@, i as int);
                }
                let ghost e0 = self.state_map@;
                self.state_map[i].successors.push(next);
                proof {
                    let t = self.state_map@[i as int];
                    assert(self.state_map@ == e0.update(i as int, t));
                    assert(t.succ() =~= e0[i as int].succ().push(next@));
                    lemma_entries_map_update(e0, i as int, t);
                }
            },
            None => {
                proof {
                    lemma_entries_map_contains(self.state_map@, key);
                }
                let ghost e0 = self.state_map@;
                let t = Transition { state, successors: vec![next] };
                proof {
                    assert(t.succ() =~= seq![next@]);
                    lemma_entries_map_push(e0, t);
                }
                self.state_map.push(t);
            },
        }
    }

    /// Trains on sentences already split into tokens, with windows of
    /// `state_size` tokens; a chain trained with another size refuses.
    pub fn train_tokens(&mut self, corpus: &Vec<Vec<String>>, state_size: usize) -> (r: Result<(), ChainError>)
        requires
            old(self).wf(),
            state_size > 0,
        ensures
            final(self).wf(),
            old(self).order() != 0 && old(self).order() != state_size <==> r is Err,
            r is Err ==> r == Err::<(), ChainError>(ChainError::InconsistentRetraining) && final(self).table() == old(self).table()
                && final(self).order() == old(self).order(),
            r is Ok ==> final(self).order() == state_size && final(self).table() == trained(
                old(self).table(),
                corpus@.map_values(|s: Vec<String>| words_view(s@)),
                state_size as nat,
            ),
    {
        if self.state_size != 0 && self.state_size != state_size {
            return Err(ChainError::InconsistentRetraining);
        }
        let ghost m0 = self.table();
        let ghost k = state_size as nat;
        let ghost cv = corpus@.map_values(|s: Vec<String>| words_view(s@));
        let mut n: usize = 0;
        while n < corpus.len()
            invariant
                0 <= n <= corpus@.len(),
                keys_unique(self.state_map@),
                cv == corpus@.map_values(|s: Vec<String>| words_view(s@)),
                k == state_size,
                self.table() == trained(m0, cv.subrange(0, n as int), k),
            decreases corpus@.len() - n,
        {
            let words = &corpus[n];
            let ghost before = corpus_observations(cv.subrange(0, n as int), k);
            let ghost wv = words_view(words@);
            assert(cv[n as int] == wv);
            if state_size < words.len() {
                let mut j: usize = 0;
                while j < words.len() - state_size
                    invariant
                        state_size < words@.len(),
                        0 <= j <= words@.len() - state_size,
                        keys_unique(self.state_map@),
                        wv == words_view(words@),
                        k == state_size,
                        self.table() == record_all(m0, before + window_observations(wv, k).subrange(0, j as int)),
                    decreases words@.len() - state_size - j,
                {
                    let state = copy_tokens(words, j, j + state_size);
                    let next = words[j + state_size].clone();
                    let ghost obs = before + window_observations(wv, k).subrange(0, j as int);
                    self.record_transition(state, next);
                    proof {
                        let obs2 = before + window_observations(wv, k).subrange(0, j + 1);
                        assert(obs2.drop_last() =~= obs);
                        assert(obs2.last() == (words_view(state@), next@));
                    }
                    j = j + 1;
                }
            }
            proof {
                let w = window_observations(wv, k);
                assert(w.subrange(0, w.len() as int) =~= w);
                assert(cv.subrange(0, n + 1).drop_last() =~= cv.subrange(0, n as int));
                assert(cv.subrange(0, n + 1).last() == wv);
                if state_size >= words.len() {
                    assert(before + w =~= before);
                    assert(before + w.subrange(0, 0) =~= before);
                }
            }
            n = n + 1;
        }
        proof {
            assert(cv.subrange(0, cv.len() as int) =~= cv);
            lemma_trained_consistent(m0, cv, k);
        }
        self.state_size = state_size;
        Ok(())
    }

    /// Trains on sentences, each split on whitespace, with windows of
    /// `state_size` tokens; a chain trained with another size refuses.
    pub fn train(&mut self, data: Vec<String>, state_size: usize) -> (r: Result<(), ChainError>)
        requires
            old(self).wf(),
            state_size > 0,
        ensures
            final(self).wf(),
            old(self).order() != 0 && old(self).order() != state_size <==> r is Err,
            r is Err ==> r == Err::<(), ChainError>(ChainError::InconsistentRetraining) && final(self).table() == old(self).table()
                && final(self).order() == old(self).order(),
            r is Ok ==> final(self).order() == state_size && final(self).table() == trained(
                old(self).table(),
                data@.map_values(|s: String| whitespace_tokens(s@)),
                state_size as nat,
            ),
    {
        let mut corpus: Vec<Vec<String>> = Vec::new();
        let mut i: usize = 0;
        while i < data.len()
            invariant
                0 <= i <= data@.len(),
                corpus@.len() == i,
                corpus@.map_values(|s: Vec<String>| words_view(s@)) == data@.subrange(0, i as int).map_values(
                    |s: String| whitespace_tokens(s@),
                ),
            decreases data@.len() - i,
        {
            let words = split_tokens(data[i].as_str());
            let ghost c0 = corpus@;
            assert(words_view(words@) == whitespace_tokens(data@[i as int]@));
            corpus.push(words);
            assert(corpus@ == c0.push(words));
            assert forall|k: int| 0 <= k < i + 1 implies #[trigger] words_view(corpus@[k]@)
                == whitespace_tokens(data@[k]@) by {
                if k < i {
                    assert(corpus@[k] == c0[k]);
                    assert(c0.map_values(|s: Vec<String>| words_view(s@))[k] == data@.subrange(0, i as int).map_values(
                        |s: String| whitespace_tokens(s@),
                    )[k]);
                }
            }
            assert(corpus@.map_values(|s: Vec<String>| words_view(s@)) =~= data@.subrange(0, i + 1).map_values(
                |s: String| whitespace_tokens(s@),
            ));
            i = i + 1;
        }
        assert(data@.subrange(0, data@.len() as int) =~= data@);
        self.train_tokens(&corpus, state_size)
    }

    /// The states, in table order, that may begin a sentence.
    pub closed spec fn start_candidates(&self) -> Seq<StateSeq> {
        start_keys(self.state_map@)
    }

    /// The states that may begin a sentence, in table order.
    pub fn start_states(&self) -> (r: Vec<Vec<String>>)
        ensures
            r@.map_values(|v: Vec<String>| words_view(v@)) == self.start_candidates(),
    {
        let mut r: Vec<Vec<String>> = Vec::new();
        let mut i: usize = 0;
        while i < self.state_map.len()
            invariant
                0 <= i <= self.state_map@.len(),
                r@.map_values(|v: Vec<String>| words_view(v@)) == start_keys(self.state_map@.subrange(0, i as int)),
            decreases self.state_map@.len() - i,
        {
            let ghost r0 = r@;
            assert(self.state_map@.subrange(0, i + 1).drop_last() =~= self.state_map@.subrange(0, i as int));
            if is_start(&self.state_map[i].state) {
                let st = copy_tokens(&self.state_map[i].state, 0, self.state_map[i].state.len());
                r.push(st);
                assert(r@ == r0.push(st));
                assert(words_view(self.state_map@[i as int].state@).subrange(0, self.state_map@[i as int].state@.len() as int)
                    =~= words_view(self.state_map@[i as int].state@));
                assert(r@.map_values(|v: Vec<String>| words_view(v@)) =~= start_keys(self.state_map@.subrange(0, i + 1)));
            }
            i = i + 1;
        }
        assert(self.state_map@.subrange(0, self.state_map@.len() as int) =~= self.state_map@);
        r
    }

    /// Picks a start state uniformly among `start_states()`, with the index drawn.
    fn pick_start_indexed(&mut self) -> (r: Result<(Vec<String>, usize), ChainError>)
        ensures
            final(self).rows() == old(self).rows(),
            final(self).order() == old(self).order(),
            r is Err <==> old(self).start_candidates().len() == 0,
            r is Err ==> r == Err::<(Vec<String>, usize), ChainError>(ChainError::NoStartState),
            r is Ok ==> r->Ok_0.1 < old(self).start_candidates().len() && words_view(r->Ok_0.0@)
                == old(self).start_candidates()[r->Ok_0.1 as int],
    {
        let mut cands = self.start_states();
        if cands.len() == 0 {
            return Err(ChainError::NoStartState);
        }
        let i = draw_below(&mut self.rng, cands.len());
        let ghost cv = cands@.map_values(|v: Vec<String>| words_view(v@));
        assert(cv[i as int] == words_view(cands@[i as int]@));
        let s = cands.swap_remove(i);
        Ok((s, i))
    }

    /// Draws a successor of `state`, with the index drawn.
    fn advance_indexed(&mut self, state: &Vec<String>) -> (r: Option<(String, usize)>)
        requires
            old(self).wf(),
        ensures
            final(self).rows() == old(self).rows(),
            final(self).order() == old(self).order(),
            r is None <==> !old(self).table().contains_key(words_view(state@)),
            r is Some ==> r->Some_0.1 < old(self).table()[words_view(state@)].len() && r->Some_0.0@ == old(
                self,
            ).table()[words_view(state@)][r->Some_0.1 as int],
    {
        let n = self.successor_count(state);
        if n == 0 {
            return None;
        }
        let i = draw_below(&mut self.rng, n);
        let w = self.successor_at(state, i).unwrap();
        Some((w, i))
    }

    /// Picks a start state uniformly among `start_states()`.
    pub fn pick_start_state(&mut self) -> (r: Result<Vec<String>, ChainError>)
        ensures
            final(self).rows() == old(self).rows(),
            final(self).order() == old(self).order(),
            r is Err <==> old(self).start_candidates().len() == 0,
            r is Err ==> r == Err::<Vec<String>, ChainError>(ChainError::NoStartState),
            r is Ok ==> old(self).start_candidates().contains(words_view(r->Ok_0@)),
    {
        match self.pick_start_indexed() {
            Ok((s, i)) => Ok(s),
            Err(e) => Err(e),
        }
    }

    /// The `index`-th successor recorded for `state`, if the state is known
    /// and has that many.
    pub fn successor_at(&self, state: &Vec<String>, index: usize) -> (r: Option<String>)
        requires
            self.wf(),
        ensures
            self.table().contains_key(words_view(state@)) && index < self.table()[words_view(state@)].len()
                <==> r is Some,
            r is Some ==> r->Some_0@ == self.table()[words_view(state@)][index as int],
    {
        match self.find_state(state) {
            Some(i) => {
                proof {
                    lemma_entries_map_at(self.state_map@, i as int);
                }
                if index < self.state_map[i].successors.len() {
                    Some(self.state_map[i].successors[index].clone())
                } else {
                    None
                }
            },
            None => {
                proof {
                    lemma_entries_map_contains(self.state_map@, words_view(state@));
                }
                None
            },
        }
    }

    /// How many successors are recorded for `state`; zero for an unknown state.
    pub fn successor_count(&self, state: &Vec<String>) -> (r: usize)
        requires
            self.wf(),
        ensures
            self.table().contains_key(words_view(state@)) ==> r == self.table()[words_view(state@)].len(),
            !self.table().contains_key(words_view(state@)) ==> r == 0,
    {
        match self.find_state(state) {
            Some(i) => {
                proof {
                    lemma_entries_map_at(self.state_map@, i as int);
                }
                self.state_map[i].successors.len()
            },
            None => {
                proof {
                    lemma_entries_map_contains(self.state_map@, words_view(state@));
                }
                0
            },
        }
    }

    /// Draws a successor of `state` uniformly from its recorded list; none
    /// for a state that was never seen before another token.
    pub fn advance(&mut self, state: &Vec<String>) -> (r: Option<String>)
        requires
            old(self).wf(),
        ensures
            final(self).rows() == old(self).rows(),
            final(self).order() == old(self).order(),
            r is None <==> !old(self).table().contains_key(words_view(state@)),
            r is Some ==> old(self).table()[words_view(state@)].contains(r->Some_0@),
    {
        match self.advance_indexed(state) {
            Some((w, i)) => {
                assert(old(self).table()[words_view(state@)][i as int] == w@);
                Some(w)
            },
            None => None,
        }
    }
}


impl MarkovChain {
    /// `t` is what a walk of `length` tokens may give: no tokens on an
    /// untrained chain, exactly `length` otherwise, each one taken from the
    /// table, possibly with a period appended, the first one being the first
    /// token of a start state.
    pub open spec fn is_walk_of(&self, length: nat, t: Seq<Token>) -> bool {
        &&& (self.order() == 0 ==> t.len() == 0)
        &&& (self.order() > 0 ==> t.len() == length)
        &&& forall|i: int| 0 <= i < t.len() ==> from_table(self.table(), #[trigger] t[i])
        &&& (t.len() > 0 ==> begins_a_start(self.start_candidates(), t[0]))
    }

    /// A walk of `length` tokens: start at a random start state, move to a
    /// drawn successor while there is one, and at a state without successors
    /// emit the rest of the state, end the sentence with a period and start
    /// again.
    pub fn generate_tokens(&mut self, length: usize) -> (r: Result<Vec<String>, ChainError>)
        requires
            old(self).wf(),
        ensures
            final(self).rows() == old(self).rows(),
            final(self).order() == old(self).order(),
            final(self).wf(),
            r is Err <==> old(self).order() > 0 && length > 0 && old(self).start_candidates().len() == 0,
            r is Err ==> r == Err::<Vec<String>, ChainError>(ChainError::NoStartState),
            length == 0 ==> r is Ok && r->Ok_0@.len() == 0,
            r is Ok ==> old(self).is_walk_of(length as nat, words_view(r->Ok_0@)),
            r is Ok && old(self).order() > 0 && length > 0 ==> exists|draws: Seq<nat>|
                words_view(r->Ok_0@) == #[trigger] generation_walk(
                    old(self).table(),
                    old(self).start_candidates(),
                    length as nat,
                    draws,
                ),
    {
        let mut emitted: Vec<String> = Vec::new();
        if self.state_size == 0 || length == 0 {
            assert(words_view(emitted@).len() == 0);
            return Ok(emitted);
        }
        let ghost m = self.table();
        let ghost rows0 = self.state_map@;
        let k = self.state_size;
        let ghost cands = self.start_candidates();
        let (mut current, d0) = match self.pick_start_indexed() {
            Ok(p) => p,
            Err(e) => {
                return Err(e);
            },
        };
        let ghost mut ds: Seq<nat> = seq![d0 as nat];
        let ghost mut steps: nat = 1;
        proof {
            lemma_start_keys_are_rows(rows0);
            lemma_key_tokens_occur(m, words_view(current@));
            lemma_small_mod(d0 as nat, cands.len());
            assert forall|x: Seq<nat>| x.len() >= steps && #[trigger] x.subrange(0, steps as int) == ds implies generation_walk(
                m,
                cands,
                length as nat,
                x,
            ) == generation_run(m, cands, words_view(current@), words_view(emitted@), length as nat, x, steps) by {
                assert(x[0] == x.subrange(0, 1)[0]);
                assert(words_view(emitted@) =~= Seq::<Token>::empty());
            }
        }
        while emitted.len() < length
            invariant
                self.state_map@ == rows0,
                self.state_size == k,
                k > 0,
                m == self.table(),
                self.wf(),
                self.start_candidates().len() > 0,
                current@.len() == k,
                forall|j: int| 0 <= j < k ==> occurs(m, #[trigger] words_view(current@)[j]),
                emitted@.len() <= length,
                forall|i: int| 0 <= i < emitted@.len() ==> from_table(m, #[trigger] words_view(emitted@)[i]),
                cands == self.start_candidates(),
                emitted@.len() == 0 ==> cands.contains(words_view(current@)),
                emitted@.len() > 0 ==> begins_a_start(cands, words_view(emitted@)[0]),
                m == old(self).table(),
                cands == old(self).start_candidates(),
                ds.len() == steps,
                forall|x: Seq<nat>|
                    x.len() >= steps && #[trigger] x.subrange(0, steps as int) == ds ==> generation_walk(
                        m,
                        cands,
                        length as nat,
                        x,
                    ) == generation_run(m, cands, words_view(current@), words_view(emitted@), length as nat, x, steps),
            decreases length - emitted@.len(),
        {
            let ghost cv = words_view(current@);
            let ghost ev = words_view(emitted@);
            match self.advance_indexed(&current) {
                Some((w, d)) => {
                    let first = current[0].clone();
                    emitted.push(first);
                    proof {
                        assert(m[cv][d as int] == w@);
                        assert(m[cv].contains(w@));
                        assert(words_view(emitted@) =~= ev.push(cv[0]));
                        lemma_successor_occurs(m, cv, w@);
                        assert forall|i: int| 0 <= i < emitted@.len() implies from_table(m, #[trigger] words_view(emitted@)[i]) by {
                            if i < ev.len() {
                                assert(words_view(emitted@)[i] == ev[i]);
                            }
                        }
                        if ev.len() == 0 {
                            let j = choose|j: int| 0 <= j < cands.len() && cands[j] == cv;
                            assert(cands[j][0] == words_view(emitted@)[0]);
                        } else {
                            assert(words_view(emitted@)[0] == ev[0]);
                        }
                    }
                    current = slide(&current, w);
                    proof {
                        assert(words_view(current@).len() == current@.len());
                        assert forall|j: int| 0 <= j < k implies occurs(m, #[trigger] words_view(current@)[j]) by {
                            if j < k - 1 {
                                assert(words_view(current@)[j] == cv[j + 1]);
                            }
                        }
                        lemma_small_mod(d as nat, m[cv].len());
                        let ds2 = ds.push(d as nat);
                        assert forall|x: Seq<nat>|
                            x.len() >= steps + 1 && #[trigger] x.subrange(0, (steps + 1) as int) == ds2 implies generation_walk(
                            m,
                            cands,
                            length as nat,
                            x,
                        ) == generation_run(m, cands, words_view(current@), words_view(emitted@), length as nat, x, (steps + 1) as nat) by {
                            assert(x.subrange(0, steps as int) =~= ds);
                            assert(x[steps as int] == ds2[steps as int]);
                        }
                        ds = ds2;
                        steps = steps + 1;
                    }
                },
                None => {
                    proof {
                        if ev.len() == 0 {
                            lemma_start_keys_are_rows(rows0);
                            let j = choose|j: int| 0 <= j < cands.len() && cands[j] == cv;
                            assert(m.contains_key(cands[j]));
                        }
                    }
                    let e_start = emitted.len();
                    let mut i: usize = 0;
                    while i < k && emitted.len() < length
                        invariant
                            0 <= i <= k,
                            current@.len() == k,
                            cv == words_view(current@),
                            forall|j: int| 0 <= j < k ==> occurs(m, #[trigger] cv[j]),
                            e_start < length,
                            emitted@.len() == e_start + i,
                            emitted@.len() <= length,
                            forall|q: int| 0 <= q < emitted@.len() ==> from_table(m, #[trigger] words_view(emitted@)[q]),
                            i > 0 ==> occurs(m, words_view(emitted@).last()),
                            e_start == 0 ==> cands.contains(cv),
                            e_start == 0 && emitted@.len() > 0 ==> words_view(emitted@)[0] == cv[0],
                            e_start > 0 ==> words_view(emitted@)[0] == ev[0],
                            e_start == ev.len(),
                            ev.len() > 0 ==> begins_a_start(cands, ev[0]),
                            words_view(emitted@) == ev + cv.subrange(0, i as int),
                        decreases k - i,
                    {
                        let ghost ev2 = words_view(emitted@);
                        let t = current[i].clone();
                        emitted.push(t);
                        proof {
                            assert(words_view(emitted@) =~= ev2.push(cv[i as int]));
                            assert forall|q: int| 0 <= q < emitted@.len() implies from_table(m, #[trigger] words_view(emitted@)[q]) by {
                                if q < ev2.len() {
                                    assert(words_view(emitted@)[q] == ev2[q]);
                                }
                            }
                            if ev2.len() > 0 {
                                assert(words_view(emitted@)[0] == ev2[0]);
                            }
                            assert(words_view(emitted@) =~= ev + cv.subrange(0, i + 1));
                        }
                        i = i + 1;
                    }
                    let ghost ev3 = words_view(emitted@);
                    let ghost n: int = if cv.len() <= length - ev.len() { cv.len() as int } else { length - ev.len() };
                    assert(i == n);
                    let last = emitted.pop().unwrap();
                    let dotted = with_period(last);
                    emitted.push(dotted);
                    proof {
                        assert(last@ == ev3[ev3.len() - 1]);
                        assert(ev3.len() >= 2);
                        assert(words_view(emitted@)[0] == ev3[0]);
                        assert(dotted@.drop_last() =~= last@);
                        assert(words_view(emitted@) =~= ev3.drop_last().push(dotted@));
                        assert forall|q: int| 0 <= q < emitted@.len() implies from_table(m, #[trigger] words_view(emitted@)[q]) by {
                            if q < ev3.len() - 1 {
                                assert(words_view(emitted@)[q] == ev3[q]);
                            }
                        }
                    }
                    let (next, d) = match self.pick_start_indexed() {
                        Ok(p) => p,
                        Err(e) => {
                            return Err(e);
                        },
                    };
                    current = next;
                    proof {
                        lemma_start_keys_are_rows(rows0);
                        assert(m.contains_key(cands[d as int]));
                        assert(cands.contains(words_view(current@)));
                        lemma_key_tokens_occur(m, words_view(current@));
                        assert(words_view(current@).len() == k);
                        lemma_small_mod(d as nat, cands.len());
                        let ds2 = ds.push(d as nat);
                        assert forall|x: Seq<nat>|
                            x.len() >= steps + 1 && #[trigger] x.subrange(0, (steps + 1) as int) == ds2 implies generation_walk(
                            m,
                            cands,
                            length as nat,
                            x,
                        ) == generation_run(m, cands, words_view(current@), words_view(emitted@), length as nat, x, (steps + 1) as nat) by {
                            assert(x.subrange(0, steps as int) =~= ds);
                            assert(x[steps as int] == ds2[steps as int]);
                        }
                        ds = ds2;
                        steps = steps + 1;
                    }
                },
            }
        }
        proof {
            assert(ds.subrange(0, steps as int) =~= ds);
        }
        Ok(emitted)
    }

    /// A walk of `length` tokens (see `generate_tokens`), joined by single spaces.
    pub fn generate(&mut self, length: usize) -> (r: Result<String, ChainError>)
        requires
            old(self).wf(),
        ensures
            final(self).rows() == old(self).rows(),
            final(self).order() == old(self).order(),
            final(self).wf(),
            r is Err <==> old(self).order() > 0 && length > 0 && old(self).start_candidates().len() == 0,
            r is Err ==> r == Err::<String, ChainError>(ChainError::NoStartState),
            length == 0 || old(self).order() == 0 ==> r is Ok && r->Ok_0@.len() == 0,
            r is Ok ==> exists|t: Seq<Token>| #[trigger] join_spaces(t) == r->Ok_0@ && old(self).is_walk_of(length as nat, t),
            r is Ok && old(self).order() > 0 && length > 0 ==> exists|draws: Seq<nat>|
                r->Ok_0@ == join_spaces(
                    #[trigger] generation_walk(old(self).table(), old(self).start_candidates(), length as nat, draws),
                ),
    {
        match self.generate_tokens(length) {
            Ok(words) => {
                let s = join_words(&words);
                proof {
                    if words@.len() == 0 {
                        assert(words_view(words@).len() == 0);
                    }
                }
                Ok(s)
            },
            Err(e) => Err(e),
        }
    }
}

/// The tokens of a walk of `length` tokens from state `cur` with output `e`,
/// where step `i` and later take their random choices from `draws`: at a
/// known state, emit its first token and move to the successor that the draw
/// picks; at an unknown state, emit the state's tokens while under `length`,
/// append a period to the last token, and restart at the start state that
/// the draw picks.
pub open spec fn generation_run(
    m: TableMap,
    cands: Seq<StateSeq>,
    cur: StateSeq,
    e: Seq<Token>,
    length: nat,
    draws: Seq<nat>,
    i: nat,
) -> Seq<Token>
    decreases length - e.len(),
{
    if e.len() >= length {
        e
    } else if m.contains_key(cur) {
        let succ = m[cur];
        generation_run(
            m,
            cands,
            cur.drop_first().push(succ[(draws[i as int] % succ.len()) as int]),
            e.push(cur[0]),
            length,
            draws,
            i + 1,
        )
    } else if cur.len() == 0 || cands.len() == 0 {
        e
    } else {
        let n: int = if cur.len() <= length - e.len() { cur.len() as int } else { length - e.len() };
        let f = e + cur.subrange(0, n);
        generation_run(
            m,
            cands,
            cands[(draws[i as int] % cands.len()) as int],
            f.drop_last().push(f.last().push('.')),
            length,
            draws,
            i + 1,
        )
    }
}

/// The tokens of a walk of `length` tokens whose first draw picks the start
/// state.
pub open spec fn generation_walk(m: TableMap, cands: Seq<StateSeq>, length: nat, draws: Seq<nat>) -> Seq<Token> {
    generation_run(m, cands, cands[(draws[0] % cands.len()) as int], Seq::empty(), length, draws, 1)
}

/// The most steps a completion walk takes before it gives up.
pub const MAX_WALK_STEPS: usize = 100000;

/// The number of tokens past which the end of a sentence emits no more of
/// its state during a completion.
pub const COMPLETION_FLUSH_CAP: usize = 100;

/// The tokens after a completion reaches a state without successors: the
/// state's tokens are emitted while the output is under the cap, and the last
/// token of the output gains a period.
pub open spec fn end_clause(e: Seq<Token>, cur: StateSeq) -> Seq<Token> {
    let n: int = if e.len() >= COMPLETION_FLUSH_CAP {
        0
    } else if cur.len() <= COMPLETION_FLUSH_CAP - e.len() {
        cur.len() as int
    } else {
        COMPLETION_FLUSH_CAP - e.len()
    };
    let f = e + cur.subrange(0, n);
    if f.len() == 0 {
        f
    } else {
        f.drop_last().push(f.last().push('.'))
    }
}

/// The outcome of a completion walk from state `cur` with output `e`, where
/// step `i` and later take their random choices from `draws`: at a known
/// state, emit its first token and move to the successor that the draw picks;
/// at an unknown state, end the sentence, and stop once the output holds
/// `min_len` tokens, or else restart at the start state that the draw picks.
pub open spec fn completion_run(
    m: TableMap,
    cands: Seq<StateSeq>,
    cur: StateSeq,
    e: Seq<Token>,
    min_len: nat,
    draws: Seq<nat>,
    i: nat,
) -> Result<Seq<Token>, ChainError>
    decreases MAX_WALK_STEPS - i,
{
    if i >= MAX_WALK_STEPS {
        Err(ChainError::WalkTooLong)
    } else if m.contains_key(cur) {
        let succ = m[cur];
        completion_run(
            m,
            cands,
            cur.drop_first().push(succ[(draws[i as int] % succ.len()) as int]),
            e.push(cur[0]),
            min_len,
            draws,
            i + 1,
        )
    } else if end_clause(e, cur).len() >= min_len {
        Ok(end_clause(e, cur))
    } else if cands.len() == 0 {
        Err(ChainError::NoStartState)
    } else {
        completion_run(m, cands, cands[(draws[i as int] % cands.len()) as int], end_clause(e, cur), min_len, draws, i + 1)
    }
}

/// `t` starts with the tokens of `wv`, the last of which may have gained a period.
pub open spec fn seed_kept(wv: Seq<Token>, t: Seq<Token>) -> bool {
    &&& t.len() >= wv.len()
    &&& forall|i: int| 0 <= i < wv.len() - 1 ==> #[trigger] t[i] == wv[i]
    &&& (t[wv.len() - 1] == wv.last() || t[wv.len() - 1] == wv.last().push('.'))
}

pub proof fn lemma_run_keeps_seed_after_end(
    m: TableMap,
    cands: Seq<StateSeq>,
    cur: StateSeq,
    e: Seq<Token>,
    min_len: nat,
    draws: Seq<nat>,
    i: nat,
    wv: Seq<Token>,
)
    requires
        0 < wv.len() < COMPLETION_FLUSH_CAP,
        seed_kept(wv, e),
        cur.len() > 0,
        forall|j: int| 0 <= j < cands.len() ==> (#[trigger] cands[j]).len() > 0,
    ensures
        completion_run(m, cands, cur, e, min_len, draws, i) is Ok ==> seed_kept(
            wv,
            completion_run(m, cands, cur, e, min_len, draws, i)->Ok_0,
        ),
    decreases MAX_WALK_STEPS - i,
{
    if i >= MAX_WALK_STEPS {
    } else if m.contains_key(cur) {
        let succ = m[cur];
        let e2 = e.push(cur[0]);
        assert forall|q: int| 0 <= q < wv.len() - 1 implies #[trigger] e2[q] == wv[q] by {
            assert(e2[q] == e[q]);
        }
        assert(e2[wv.len() - 1] == e[wv.len() - 1]);
        lemma_run_keeps_seed_after_end(
            m,
            cands,
            cur.drop_first().push(succ[(draws[i as int] % succ.len()) as int]),
            e2,
            min_len,
            draws,
            i + 1,
            wv,
        );
    } else {
        let e2 = end_clause(e, cur);
        let n: int = if e.len() >= COMPLETION_FLUSH_CAP {
            0
        } else if cur.len() <= COMPLETION_FLUSH_CAP - e.len() {
            cur.len() as int
        } else {
            COMPLETION_FLUSH_CAP - e.len()
        };
        let f = e + cur.subrange(0, n);
        assert(e2 == f.drop_last().push(f.last().push('.')));
        assert(f.len() - 1 >= wv.len());
        assert forall|q: int| 0 <= q < wv.len() implies #[trigger] e2[q] == e[q] by {
            assert(f[q] == e[q]);
        }
        if e2.len() < min_len && cands.len() > 0 {
            lemma_run_keeps_seed_after_end(
                m,
                cands,
                cands[(draws[i as int] % cands.len()) as int],
                e2,
                min_len,
                draws,
                i + 1,
                wv,
            );
        }
    }
}

pub proof fn lemma_run_keeps_seed_before_end(
    m: TableMap,
    cands: Seq<StateSeq>,
    cur: StateSeq,
    e: Seq<Token>,
    min_len: nat,
    draws: Seq<nat>,
    i: nat,
    wv: Seq<Token>,
)
    requires
        0 < wv.len() < COMPLETION_FLUSH_CAP,
        cur.len() > 0,
        forall|j: int| 0 <= j < cands.len() ==> (#[trigger] cands[j]).len() > 0,
        (e + cur).len() >= wv.len(),
        (e + cur).subrange(0, wv.len() as int) == wv,
    ensures
        completion_run(m, cands, cur, e, min_len, draws, i) is Ok ==> seed_kept(
            wv,
            completion_run(m, cands, cur, e, min_len, draws, i)->Ok_0,
        ),
    decreases MAX_WALK_STEPS - i,
{
    let w = wv.len() as int;
    if i >= MAX_WALK_STEPS {
    } else if m.contains_key(cur) {
        let succ = m[cur];
        let nc = cur.drop_first().push(succ[(draws[i as int] % succ.len()) as int]);
        let e2 = e.push(cur[0]);
        assert(e2 + nc =~= (e + cur).push(succ[(draws[i as int] % succ.len()) as int]));
        assert((e2 + nc).subrange(0, w) =~= (e + cur).subrange(0, w));
        lemma_run_keeps_seed_before_end(m, cands, nc, e2, min_len, draws, i + 1, wv);
    } else {
        let e2 = end_clause(e, cur);
        let n: int = if e.len() >= COMPLETION_FLUSH_CAP {
            0
        } else if cur.len() <= COMPLETION_FLUSH_CAP - e.len() {
            cur.len() as int
        } else {
            COMPLETION_FLUSH_CAP - e.len()
        };
        let f = e + cur.subrange(0, n);
        assert(f =~= (e + cur).subrange(0, e.len() + n));
        assert(f.len() >= w);
        assert(e2 == f.drop_last().push(f.last().push('.')));
        assert forall|q: int| 0 <= q < w implies #[trigger] f[q] == wv[q] by {
            assert(f[q] == (e + cur).subrange(0, w)[q]);
        }
        assert forall|q: int| 0 <= q < w - 1 implies #[trigger] e2[q] == wv[q] by {
            assert(e2[q] == f[q]);
        }
        if f.len() - 1 == w - 1 {
            assert(e2[w - 1] == wv.last().push('.'));
        } else {
            assert(e2[w - 1] == f[w - 1]);
        }
        assert(seed_kept(wv, e2));
        if e2.len() < min_len && cands.len() > 0 {
            lemma_run_keeps_seed_after_end(
                m,
                cands,
                cands[(draws[i as int] % cands.len()) as int],
                e2,
                min_len,
                draws,
                i + 1,
                wv,
            );
        }
    }
}

/// A completion whose seed holds fewer tokens than the flush cap keeps the
/// seed, token for token, at the head of its result; only the seed's last
/// token may gain a period.
pub proof fn law_completion_keeps_seed(m: MarkovChain, words: Seq<Token>, min_len: nat, draws: Seq<nat>)
    requires
        m.wf(),
        m.order() > 0,
        m.order() <= words.len() < COMPLETION_FLUSH_CAP,
    ensures
        ({
            let r = completion_run(
                m.table(),
                m.start_candidates(),
                words.subrange(words.len() - m.order(), words.len() as int),
                words.subrange(0, words.len() - m.order()),
                min_len,
                draws,
                0,
            );
            r is Ok ==> seed_kept(words, r->Ok_0)
        }),
{
    let p = words.len() - m.order();
    lemma_start_keys_are_rows(m.rows());
    assert forall|j: int| 0 <= j < m.start_candidates().len() implies (#[trigger] m.start_candidates()[j]).len() > 0 by {
        assert(m.table().contains_key(m.start_candidates()[j]));
    }
    assert(words.subrange(0, p) + words.subrange(p, words.len() as int) =~= words);
    assert(words.subrange(0, words.len() as int) =~= words);
    lemma_run_keeps_seed_before_end(
        m.table(),
        m.start_candidates(),
        words.subrange(p, words.len() as int),
        words.subrange(0, p),
        min_len,
        draws,
        0,
        words,
    );
}

/// A completion whose seed's last state is known continues the seed with one
/// of that state's successors (which may have gained a period), for seeds
/// short enough that the flush cap does not cut in.
pub proof fn law_completion_follows_seed_state(m: MarkovChain, words: Seq<Token>, min_len: nat, draws: Seq<nat>)
    requires
        m.wf(),
        m.order() > 0,
        m.order() <= words.len(),
        words.len() + 1 < COMPLETION_FLUSH_CAP,
        m.table().contains_key(words.subrange(words.len() - m.order(), words.len() as int)),
    ensures
        ({
            let r = completion_run(
                m.table(),
                m.start_candidates(),
                words.subrange(words.len() - m.order(), words.len() as int),
                words.subrange(0, words.len() - m.order()),
                min_len,
                draws,
                0,
            );
            r is Ok ==> exists|w: Token|
                m.table()[words.subrange(words.len() - m.order(), words.len() as int)].contains(w) && #[trigger] seed_kept(
                    words.push(w),
                    r->Ok_0,
                )
        }),
{
    let p = words.len() - m.order();
    let cur = words.subrange(p, words.len() as int);
    let e = words.subrange(0, p);
    let succ = m.table()[cur];
    let w = succ[(draws[0] % succ.len()) as int];
    let nc = cur.drop_first().push(w);
    let e2 = e.push(cur[0]);
    lemma_start_keys_are_rows(m.rows());
    assert forall|j: int| 0 <= j < m.start_candidates().len() implies (#[trigger] m.start_candidates()[j]).len() > 0 by {
        assert(m.table().contains_key(m.start_candidates()[j]));
    }
    assert(succ.len() > 0);
    assert(succ.contains(w));
    assert(e2 + nc =~= words.push(w));
    assert((e2 + nc).subrange(0, words.len() + 1 as int) =~= words.push(w));
    lemma_run_keeps_seed_before_end(m.table(), m.start_candidates(), nc, e2, min_len, draws, 1, words.push(w));
    assert(completion_run(m.table(), m.start_candidates(), cur, e, min_len, draws, 0) == completion_run(
        m.table(),
        m.start_candidates(),
        nc,
        e2,
        min_len,
        draws,
        1,
    ));
}

/// A result with each token vector seen as its tokens.
pub open spec fn tokens_result(r: Result<Vec<String>, ChainError>) -> Result<Seq<Token>, ChainError> {
    match r {
        Ok(v) => Ok(words_view(v@)),
        Err(e) => Err(e),
    }
}

/// A result with its tokens joined by single spaces.
pub open spec fn joined_result(r: Result<Seq<Token>, ChainError>) -> Result<Seq<char>, ChainError> {
    match r {
        Ok(t) => Ok(join_spaces(t)),
        Err(e) => Err(e),
    }
}

/// A result with each string seen as its characters.
pub open spec fn text_result(r: Result<String, ChainError>) -> Result<Seq<char>, ChainError> {
    match r {
        Ok(s) => Ok(s@),
        Err(e) => Err(e),
    }
}

/// What one step of a completion walk did.
pub enum CompletionStep {
    /// The state was known: its first token was emitted and the walk moves
    /// to this state.
    Moved(Vec<String>),
    /// The state was unknown, the sentence ended and the output is long enough.
    Stopped,
    /// The state was unknown, the sentence ended and the walk must restart.
    Restart,
}

impl MarkovChain {
    /// One step of a completion walk from `current`, with `draw` choosing
    /// among the successors (taken modulo their number).
    pub fn completion_step(&self, current: &Vec<String>, emitted: &mut Vec<String>, draw: usize, min_len: usize) -> (r:
        CompletionStep)
        requires
            self.wf(),
            current@.len() > 0,
        ensures
            self.table().contains_key(words_view(current@)) ==> r is Moved && words_view(r->Moved_0@)
                == words_view(current@).drop_first().push(
                self.table()[words_view(current@)][((draw as nat) % self.table()[words_view(current@)].len()) as int],
            ) && words_view(final(emitted)@) == words_view(old(emitted)@).push(words_view(current@)[0]),
            !self.table().contains_key(words_view(current@)) ==> words_view(final(emitted)@) == end_clause(
                words_view(old(emitted)@),
                words_view(current@),
            ) && (r is Stopped <==> end_clause(words_view(old(emitted)@), words_view(current@)).len() >= min_len) && (
            r is Stopped || r is Restart),
    {
        let ghost cv = words_view(current@);
        let ghost ev = words_view(emitted@);
        let n = self.successor_count(current);
        if n > 0 {
            let w = self.successor_at(current, draw % n).unwrap();
            let first = current[0].clone();
            emitted.push(first);
            assert(words_view(emitted@) =~= ev.push(cv[0]));
            let next = slide(current, w);
            return CompletionStep::Moved(next);
        }
        let k = current.len();
        let e_start = emitted.len();
        let mut i: usize = 0;
        while i < k && emitted.len() < COMPLETION_FLUSH_CAP
            invariant
                0 <= i <= k,
                k == current@.len(),
                cv == words_view(current@),
                emitted@.len() == e_start + i,
                e_start == ev.len(),
                e_start >= COMPLETION_FLUSH_CAP ==> i == 0,
                e_start < COMPLETION_FLUSH_CAP ==> i <= COMPLETION_FLUSH_CAP - e_start,
                words_view(emitted@) == ev + cv.subrange(0, i as int),
            decreases k - i,
        {
            let ghost ev2 = words_view(emitted@);
            let t = current[i].clone();
            emitted.push(t);
            assert(words_view(emitted@) =~= ev + cv.subrange(0, i + 1)) by {
                assert(words_view(emitted@) =~= ev2.push(cv[i as int]));
            }
            i = i + 1;
        }
        let ghost f = words_view(emitted@);
        assert(f == ev + cv.subrange(0, i as int));
        assert(end_clause(ev, cv) == if f.len() == 0 { f } else { f.drop_last().push(f.last().push('.')) });
        if emitted.len() > 0 {
            let last = emitted.pop().unwrap();
            assert(last@ == f.last());
            let dotted = with_period(last);
            emitted.push(dotted);
            assert(words_view(emitted@) =~= f.drop_last().push(f.last().push('.')));
        }
        if emitted.len() >= min_len {
            CompletionStep::Stopped
        } else {
            CompletionStep::Restart
        }
    }

    /// Continues the tokens `words`: the last `order()` of them seed the
    /// walk, the rest are kept as the head of the result, and the walk stops
    /// at the first sentence end that leaves at least `min_len` tokens (see
    /// `completion_run`, of which the result is one outcome).
    pub fn complete_tokens(&mut self, words: Vec<String>, min_len: usize) -> (r: Result<Vec<String>, ChainError>)
        requires
            old(self).wf(),
        ensures
            final(self).rows() == old(self).rows(),
            final(self).order() == old(self).order(),
            final(self).wf(),
            old(self).order() == 0 || words@.len() < old(self).order() ==> r is Ok && r->Ok_0@.len() == 0,
            old(self).order() > 0 && words@.len() >= old(self).order() ==> exists|draws: Seq<nat>|
                tokens_result(r) == #[trigger] completion_run(
                    old(self).table(),
                    old(self).start_candidates(),
                    words_view(words@).subrange(words@.len() - old(self).order(), words@.len() as int),
                    words_view(words@).subrange(0, words@.len() - old(self).order()),
                    min_len as nat,
                    draws,
                    0,
                ),
            old(self).order() > 0 && old(self).order() <= words@.len() <= COMPLETION_FLUSH_CAP && min_len
                <= words@.len() && !old(self).table().contains_key(
                words_view(words@).subrange(words@.len() - old(self).order(), words@.len() as int),
            ) ==> r is Ok && words_view(r->Ok_0@) == words_view(words@).drop_last().push(
                words_view(words@).last().push('.'),
            ),
    {
        let k = self.state_size;
        if k == 0 || words.len() < k {
            let empty: Vec<String> = Vec::new();
            assert(words_view(empty@).len() == 0);
            return Ok(empty);
        }
        let ghost m = self.table();
        let ghost cands = self.start_candidates();
        let ghost rows0 = self.state_map@;
        let ghost wv = words_view(words@);
        let plen = words.len() - k;
        let ghost init_cur = wv.subrange(plen as int, wv.len() as int);
        let ghost init_e = wv.subrange(0, plen as int);
        let mut current = copy_tokens(&words, plen, words.len());
        let mut emitted = copy_tokens(&words, 0, plen);
        let mut steps: usize = 0;
        let ghost mut ds: Seq<nat> = Seq::empty();
        proof {
            assert(wv.len() == words@.len());
            assert(words_view(current@).len() == current@.len());
            if k <= wv.len() <= COMPLETION_FLUSH_CAP && min_len <= wv.len() && !m.contains_key(init_cur) {
                let f = init_e + init_cur.subrange(0, k as int);
                assert(f =~= wv);
                assert(end_clause(init_e, init_cur) == wv.drop_last().push(wv.last().push('.')));
            }
        }
        while steps < MAX_WALK_STEPS
            invariant
                self.state_map@ == rows0,
                rows0 == old(self).state_map@,
                k == old(self).state_size,
                self.state_size == k,
                k > 0,
                m == self.table(),
                cands == self.start_candidates(),
                self.wf(),
                current@.len() == k,
                words@.len() >= k,
                wv == words_view(words@),
                wv.len() == words@.len(),
                m == old(self).table(),
                cands == old(self).start_candidates(),
                init_cur == words_view(words@).subrange(words@.len() - old(self).order(), words@.len() as int),
                init_e == words_view(words@).subrange(0, words@.len() - old(self).order()),
                plen == wv.len() - k,
                init_cur == wv.subrange(plen as int, wv.len() as int),
                init_e == wv.subrange(0, plen as int),
                ds.len() == steps,
                forall|x: Seq<nat>|
                    x.len() >= steps && #[trigger] x.subrange(0, steps as int) == ds ==> completion_run(
                        m,
                        cands,
                        init_cur,
                        init_e,
                        min_len as nat,
                        x,
                        0,
                    ) == completion_run(m, cands, words_view(current@), words_view(emitted@), min_len as nat, x, steps as nat),
            decreases MAX_WALK_STEPS - steps,
        {
            let ghost cv = words_view(current@);
            let ghost ev = words_view(emitted@);
            let n = self.successor_count(&current);
            let draw: usize = if n > 0 {
                draw_below(&mut self.rng, n)
            } else {
                0
            };
            match self.completion_step(&current, &mut emitted, draw, min_len) {
                CompletionStep::Moved(next) => {
                    proof {
                        let ds2 = ds.push(draw as nat);
                        assert forall|x: Seq<nat>|
                            x.len() >= steps + 1 && #[trigger] x.subrange(0, steps + 1) == ds2 implies completion_run(
                            m,
                            cands,
                            init_cur,
                            init_e,
                            min_len as nat,
                            x,
                            0,
                        ) == completion_run(m, cands, words_view(next@), words_view(emitted@), min_len as nat, x, (steps + 1) as nat) by {
                            assert(x.subrange(0, steps as int) =~= ds);
                            assert(x[steps as int] == ds2[steps as int]);
                        }
                        ds = ds2;
                    }
                    current = next;
                    assert(words_view(current@).len() == current@.len());
                },
                CompletionStep::Stopped => {
                    proof {
                        assert(ds.subrange(0, steps as int) =~= ds);
                        assert(!m.contains_key(cv));
                        assert(completion_run(m, cands, cv, ev, min_len as nat, ds, steps as nat) == Ok::<Seq<Token>, ChainError>(
                            words_view(emitted@),
                        ));
                        assert(tokens_result(Ok::<Vec<String>, ChainError>(emitted)) == completion_run(
                            m,
                            cands,
                            init_cur,
                            init_e,
                            min_len as nat,
                            ds,
                            0,
                        ));
                    }
                    return Ok(emitted);
                },
                CompletionStep::Restart => {
                    let starts = self.start_states();
                    if starts.len() == 0 {
                        proof {
                            assert(ds.subrange(0, steps as int) =~= ds);
                        }
                        return Err(ChainError::NoStartState);
                    }
                    let d = draw_below(&mut self.rng, starts.len());
                    let ghost sv = starts@.map_values(|v: Vec<String>| words_view(v@));
                    assert(sv[d as int] == words_view(starts@[d as int]@));
                    let next = copy_tokens(&starts[d], 0, starts[d].len());
                    proof {
                        assert(words_view(starts@[d as int]@).subrange(0, starts@[d as int]@.len() as int) =~= words_view(
                            starts@[d as int]@,
                        ));
                        assert(sv.len() == starts@.len());
                        lemma_small_mod(d as nat, sv.len());
                        let ds2 = ds.push(d as nat);
                        assert forall|x: Seq<nat>|
                            x.len() >= steps + 1 && #[trigger] x.subrange(0, steps + 1) == ds2 implies completion_run(
                            m,
                            cands,
                            init_cur,
                            init_e,
                            min_len as nat,
                            x,
                            0,
                        ) == completion_run(m, cands, words_view(next@), words_view(emitted@), min_len as nat, x, (steps + 1) as nat) by {
                            assert(x.subrange(0, steps as int) =~= ds);
                            assert(x[steps as int] == ds2[steps as int]);
                        }
                        ds = ds2;
                        lemma_start_keys_are_rows(rows0);
                        assert(m.contains_key(sv[d as int]));
                        assert(words_view(next@).len() == next@.len());
                    }
                    current = next;
                },
            }
            steps = steps + 1;
        }
        proof {
            assert(ds.subrange(0, steps as int) =~= ds);
        }
        Err(ChainError::WalkTooLong)
    }

    /// Continues a sentence (see `complete_tokens`), split on whitespace and
    /// joined back by single spaces.
    pub fn complete(&mut self, sentence: String, min_len: usize) -> (r: Result<String, ChainError>)
        requires
            old(self).wf(),
        ensures
            final(self).rows() == old(self).rows(),
            final(self).order() == old(self).order(),
            final(self).wf(),
            old(self).order() == 0 || whitespace_tokens(sentence@).len() < old(self).order() ==> r is Ok
                && r->Ok_0@.len() == 0,
            old(self).order() > 0 && whitespace_tokens(sentence@).len() >= old(self).order() ==> exists|draws: Seq<nat>|
                text_result(r) == joined_result(
                    #[trigger] completion_run(
                        old(self).table(),
                        old(self).start_candidates(),
                        whitespace_tokens(sentence@).subrange(
                            whitespace_tokens(sentence@).len() - old(self).order(),
                            whitespace_tokens(sentence@).len() as int,
                        ),
                        whitespace_tokens(sentence@).subrange(0, whitespace_tokens(sentence@).len() - old(self).order()),
                        min_len as nat,
                        draws,
                        0,
                    ),
                ),
    {
        let words = split_tokens(sentence.as_str());
        assert(words_view(words@).len() == words@.len());
        let r = self.complete_tokens(words, min_len);
        match r {
            Ok(out) => {
                let s = join_words(&out);
                proof {
                    if out@.len() == 0 {
                        assert(words_view(out@).len() == 0);
                    }
                }
                Ok(s)
            },
            Err(e) => Err(e),
        }
    }
}

/// The table in its stored form: each state as its tokens joined by single
/// spaces, with its successors, and the window size.
pub struct SavedChain {
    pub state_map: Vec<(String, Vec<String>)>,
    pub state_size: usize,
}

/// The rows as pairs of a state and its successors.
pub open spec fn rows_view(e: Seq<Transition>) -> Seq<(StateSeq, Seq<Token>)> {
    e.map_values(|t: Transition| (t.key(), t.succ()))
}

/// The stored pairs as characters and tokens.
pub open spec fn saved_view(v: Seq<(String, Vec<String>)>) -> Seq<(Seq<char>, Seq<Token>)> {
    v.map_values(|e: (String, Vec<String>)| (e.0@, words_view(e.1@)))
}

/// Rows in stored form: each state joined by single spaces.
pub open spec fn saved_of(rows: Seq<(StateSeq, Seq<Token>)>) -> Seq<(Seq<char>, Seq<Token>)> {
    rows.map_values(|r: (StateSeq, Seq<Token>)| (join_spaces(r.0), r.1))
}

/// Stored pairs read back: each key split on whitespace.
pub open spec fn loaded_of(saved: Seq<(Seq<char>, Seq<Token>)>) -> Seq<(StateSeq, Seq<Token>)> {
    saved.map_values(|e: (Seq<char>, Seq<Token>)| (whitespace_tokens(e.0), e.1))
}

/// Rows that make a table for windows of `k` tokens: every state of `k`
/// tokens, every successor list non-empty, no state twice, and no rows at all
/// when `k` is zero.
pub open spec fn valid_rows(rows: Seq<(StateSeq, Seq<Token>)>, k: nat) -> bool {
    &&& (k == 0 ==> rows.len() == 0)
    &&& forall|i: int| 0 <= i < rows.len() ==> (#[trigger] rows[i]).0.len() == k && rows[i].1.len() > 0
    &&& forall|i: int, j: int| 0 <= i < j < rows.len() ==> (#[trigger] rows[i]).0 != (#[trigger] rows[j]).0
}

/// Every state of the rows splits back on whitespace into its own tokens.
pub open spec fn keys_round_trip(rows: Seq<(StateSeq, Seq<Token>)>) -> bool {
    forall|i: int| 0 <= i < rows.len() ==> whitespace_tokens(join_spaces((#[trigger] rows[i]).0)) == rows[i].0
}

pub proof fn lemma_rows_view_determines_table(e1: Seq<Transition>, e2: Seq<Transition>)
    requires
        rows_view(e1) == rows_view(e2),
    ensures
        entries_map(e1) == entries_map(e2),
    decreases e1.len(),
{
    assert(rows_view(e1).len() == e1.len());
    assert(rows_view(e2).len() == e2.len());
    if e1.len() > 0 {
        assert forall|i: int| 0 <= i < e1.len() - 1 implies #[trigger] rows_view(e1.drop_last())[i] == rows_view(
            e2.drop_last(),
        )[i] by {
            assert(rows_view(e1)[i] == rows_view(e2)[i]);
        }
        assert(rows_view(e1.drop_last()) =~= rows_view(e2.drop_last()));
        lemma_rows_view_determines_table(e1.drop_last(), e2.drop_last());
        assert(rows_view(e1)[e1.len() - 1] == rows_view(e2)[e1.len() - 1]);
    }
}

impl MarkovChain {
    pub proof fn lemma_wf_valid_rows(&self)
        requires
            self.wf(),
        ensures
            valid_rows(rows_view(self.rows()), self.order()),
    {
        let e = self.state_map@;
        let rv = rows_view(e);
        assert forall|i: int| 0 <= i < rv.len() implies (#[trigger] rv[i]).0.len() == self.order() && rv[i].1.len() > 0 by {
            lemma_entries_map_at(e, i);
        }
        assert forall|i: int, j: int| 0 <= i < j < rv.len() implies (#[trigger] rv[i]).0 != (#[trigger] rv[j]).0 by {
            assert(e[i].key() != e[j].key());
        }
    }

    /// The chain in stored form.
    pub fn to_saved(&self) -> (r: SavedChain)
        ensures
            saved_view(r.state_map@) == saved_of(rows_view(self.rows())),
            r.state_size == self.order(),
    {
        let mut out: Vec<(String, Vec<String>)> = Vec::new();
        let mut i: usize = 0;
        while i < self.state_map.len()
            invariant
                0 <= i <= self.state_map@.len(),
                out@.len() == i,
                saved_view(out@) == saved_of(rows_view(self.state_map@)).subrange(0, i as int),
            decreases self.state_map@.len() - i,
        {
            let key = join_words(&self.state_map[i].state);
            let succ = copy_tokens(&self.state_map[i].successors, 0, self.state_map[i].successors.len());
            let ghost o0 = out@;
            out.push((key, succ));
            proof {
                let t = self.state_map@[i as int];
                assert(words_view(t.successors@).subrange(0, t.successors@.len() as int) =~= t.succ());
                assert(out@ == o0.push((key, succ)));
                assert(saved_view(out@)[i as int] == (key@, words_view(succ@)));
                assert(rows_view(self.state_map@)[i as int] == (t.key(), t.succ()));
                assert(saved_view(out@) =~= saved_of(rows_view(self.state_map@)).subrange(0, i + 1));
            }
            i = i + 1;
        }
        assert(saved_of(rows_view(self.state_map@)).subrange(0, self.state_map@.len() as int) =~= saved_of(
            rows_view(self.state_map@),
        ));
        SavedChain { state_map: out, state_size: self.state_size }
    }

    /// Rebuilds a chain from its stored form, with a fresh random source; a
    /// stored form that is no table for its window size is refused.
    pub fn from_saved(saved: &SavedChain) -> (r: Result<MarkovChain, ChainError>)
        ensures
            r is Ok <==> valid_rows(loaded_of(saved_view(saved.state_map@)), saved.state_size as nat),
            r is Err ==> r->Err_0 == ChainError::InvalidSaved,
            r is Ok ==> r->Ok_0.wf() && r->Ok_0.order() == saved.state_size && rows_view(r->Ok_0.rows())
                == loaded_of(saved_view(saved.state_map@)),
    {
        let ghost lv = loaded_of(saved_view(saved.state_map@));
        let k = saved.state_size;
        if k == 0 && saved.state_map.len() > 0 {
            return Err(ChainError::InvalidSaved);
        }
        let mut chain = MarkovChain { state_map: Vec::new(), rng: fresh_rng(), state_size: k };
        let mut i: usize = 0;
        while i < saved.state_map.len()
            invariant
                0 <= i <= saved.state_map@.len(),
                lv == loaded_of(saved_view(saved.state_map@)),
                lv.len() == saved.state_map@.len(),
                k == 0 ==> saved.state_map@.len() == 0,
                chain.state_size == k,
                k == saved.state_size,
                keys_unique(chain.state_map@),
                rows_view(chain.state_map@) == lv.subrange(0, i as int),
                valid_rows(lv.subrange(0, i as int), k as nat),
            decreases saved.state_map@.len() - i,
        {
            let tokens = split_tokens(saved.state_map[i].0.as_str());
            assert(words_view(tokens@) == lv[i as int].0);
            if tokens.len() != k || saved.state_map[i].1.len() == 0 {
                proof {
                    assert(words_view(tokens@).len() == tokens@.len());
                    assert(words_view(saved.state_map@[i as int].1@).len() == saved.state_map@[i as int].1@.len());
                    assert(lv[i as int].1 == words_view(saved.state_map@[i as int].1@));
                    assert(lv[i as int].0.len() != k || lv[i as int].1.len() == 0);
                    assert(!valid_rows(lv, k as nat));
                }
                return Err(ChainError::InvalidSaved);
            }
            match chain.find_state(&tokens) {
                Some(j) => {
                    proof {
                        assert(rows_view(chain.state_map@).len() == chain.state_map@.len());
                        assert(chain.state_map@.len() == i);
                        assert(rows_view(chain.state_map@)[j as int] == lv.subrange(0, i as int)[j as int]);
                        assert(rows_view(chain.state_map@)[j as int].0 == chain.state_map@[j as int].key());
                        assert(lv[j as int].0 == lv[i as int].0);
                        assert(!valid_rows(lv, k as nat));
                    }
                    return Err(ChainError::InvalidSaved);
                },
                None => {},
            }
            let succ = copy_tokens(&saved.state_map[i].1, 0, saved.state_map[i].1.len());
            let t = Transition { state: tokens, successors: succ };
            let ghost e0 = chain.state_map@;
            chain.state_map.push(t);
            proof {
                assert(chain.state_map@ == e0.push(t));
                assert(words_view(saved.state_map@[i as int].1@).subrange(0, saved.state_map@[i as int].1@.len() as int)
                    =~= words_view(saved.state_map@[i as int].1@));
                assert(rows_view(e0).len() == e0.len());
                assert(rows_view(chain.state_map@)[i as int] == (t.key(), t.succ()));
                assert(lv[i as int] == (words_view(tokens@), words_view(saved.state_map@[i as int].1@)));
                assert forall|a: int| 0 <= a < i implies #[trigger] rows_view(chain.state_map@)[a] == lv[a] by {
                    assert(rows_view(chain.state_map@)[a] == rows_view(e0)[a]);
                    assert(rows_view(e0)[a] == lv.subrange(0, i as int)[a]);
                }
                assert(rows_view(chain.state_map@) =~= lv.subrange(0, i + 1));
                assert forall|a: int, b: int| 0 <= a < b < chain.state_map@.len() implies (#[trigger] chain.state_map@[a]).key()
                    != (#[trigger] chain.state_map@[b]).key() by {
                    if b < e0.len() {
                        assert(e0[a].key() != e0[b].key());
                    } else {
                        assert(chain.state_map@[a] == e0[a]);
                    }
                }
                let sub = lv.subrange(0, i + 1);
                assert forall|a: int| 0 <= a < sub.len() implies (#[trigger] sub[a]).0.len() == k && sub[a].1.len() > 0 by {
                    if a < i {
                        assert(sub[a] == lv.subrange(0, i as int)[a]);
                    } else {
                        assert(words_view(saved.state_map@[i as int].1@).len() == saved.state_map@[i as int].1@.len());
                    }
                }
                assert forall|a: int, b: int| 0 <= a < b < sub.len() implies (#[trigger] sub[a]).0 != (#[trigger] sub[b]).0 by {
                    assert(sub[a] == rows_view(chain.state_map@)[a]);
                    assert(sub[b] == rows_view(chain.state_map@)[b]);
                }
            }
            i = i + 1;
        }
        proof {
            assert(lv.subrange(0, lv.len() as int) =~= lv);
            let e = chain.state_map@;
            let m = entries_map(e);
            assert forall|s: StateSeq| #[trigger] m.contains_key(s) implies s.len() == k && m[s].len() > 0 by {
                lemma_entries_map_contains(e, s);
                let a = choose|a: int| 0 <= a < e.len() && (#[trigger] e[a]).key() == s;
                lemma_entries_map_at(e, a);
                assert(rows_view(e)[a] == lv[a]);
            }
        }
        Ok(chain)
    }
}

/// Saving a chain and loading what was saved gives back its window size and
/// its table, row for row, whenever every state splits back on whitespace
/// into its own tokens (a token holding a space, or an empty one, would not).
pub proof fn law_save_load_round_trip(m: MarkovChain, loaded: MarkovChain)
    requires
        m.wf(),
        keys_round_trip(rows_view(m.rows())),
        rows_view(loaded.rows()) == loaded_of(saved_of(rows_view(m.rows()))),
        loaded.order() == m.order(),
    ensures
        valid_rows(loaded_of(saved_of(rows_view(m.rows()))), m.order()),
        rows_view(loaded.rows()) == rows_view(m.rows()),
        loaded.table() == m.table(),
{
    let rv = rows_view(m.rows());
    assert(loaded_of(saved_of(rv)) =~= rv);
    m.lemma_wf_valid_rows();
    lemma_rows_view_determines_table(loaded.rows(), m.rows());
}

/// In a well-formed chain, which every operation keeps well-formed, every
/// state of the table holds exactly `order()` tokens and has at least one
/// successor.
pub proof fn law_states_have_order(m: MarkovChain, s: StateSeq)
    requires
        m.wf(),
        m.table().contains_key(s),
    ensures
        s.len() == m.order(),
        m.table()[s].len() > 0,
{
}

/// Training on the sentences `a` and then on `b` leaves the table that
/// training once on `a` followed by `b` leaves, successor lists in the same
/// order.
pub proof fn law_train_additive(m: TableMap, a: Seq<String>, b: Seq<String>, k: nat)
    ensures
        trained(
            trained(m, a.map_values(|s: String| whitespace_tokens(s@)), k),
            b.map_values(|s: String| whitespace_tokens(s@)),
            k,
        ) == trained(m, (a + b).map_values(|s: String| whitespace_tokens(s@)), k),
{
    let f = |s: String| whitespace_tokens(s@);
    assert((a + b).map_values(f) =~= a.map_values(f) + b.map_values(f));
    lemma_train_additive(m, a.map_values(f), b.map_values(f), k);
}

/// The state moved on by one token: its first token dropped, `w` appended.
fn slide(current: &Vec<String>, w: String) -> (r: Vec<String>)
    requires
        current@.len() > 0,
    ensures
        words_view(r@) == words_view(current@).drop_first().push(w@),
{
    let mut r = copy_tokens(current, 1, current.len());
    let ghost r0 = r@;
    r.push(w);
    assert(r@ == r0.push(w));
    assert(words_view(r@) =~= words_view(current@).drop_first().push(w@));
    r
}

/// The token with a period appended.
fn with_period(w: String) -> (r: String)
    ensures
        r@ == w@.push('.'),
{
    let ghost w0 = w@;
    let mut w = w;
    w.append(".");
    proof {
        reveal_strlit(".");
    }
    assert(w@ =~= w0.push('.'));
    w
}

/// `w` is the first token of one of the start states.
pub open spec fn begins_a_start(cands: Seq<StateSeq>, w: Token) -> bool {
    exists|j: int| 0 <= j < cands.len() && (#[trigger] cands[j])[0] == w
}

/// A token appears in the table, in a state or among successors.
pub open spec fn occurs(m: TableMap, w: Token) -> bool {
    exists|s: StateSeq| #[trigger] m.contains_key(s) && (s.contains(w) || m[s].contains(w))
}

/// A token appears in the table, or is such a token with a period appended.
pub open spec fn from_table(m: TableMap, w: Token) -> bool {
    occurs(m, w) || (w.len() > 0 && w.last() == '.' && occurs(m, w.drop_last()))
}

pub proof fn lemma_key_tokens_occur(m: TableMap, s: StateSeq)
    requires
        m.contains_key(s),
    ensures
        forall|j: int| 0 <= j < s.len() ==> occurs(m, #[trigger] s[j]),
{
    assert forall|j: int| 0 <= j < s.len() implies occurs(m, #[trigger] s[j]) by {
        assert(s.contains(s[j]));
    }
}

pub proof fn lemma_successor_occurs(m: TableMap, s: StateSeq, w: Token)
    requires
        m.contains_key(s),
        m[s].contains(w),
    ensures
        occurs(m, w),
{
}

/// A state may begin a sentence when its first token starts with an
/// uppercase letter.
pub open spec fn eligible(s: StateSeq) -> bool {
    s.len() > 0 && s[0].len() > 0 && is_upper(s[0][0])
}

/// The states of the rows that may begin a sentence, in row order.
pub open spec fn start_keys(e: Seq<Transition>) -> Seq<StateSeq>
    decreases e.len(),
{
    if e.len() == 0 {
        Seq::empty()
    } else if eligible(e.last().key()) {
        start_keys(e.drop_last()).push(e.last().key())
    } else {
        start_keys(e.drop_last())
    }
}

pub proof fn lemma_start_keys_are_rows(e: Seq<Transition>)
    ensures
        forall|j: int| 0 <= j < start_keys(e).len() ==> eligible(#[trigger] start_keys(e)[j])
            && entries_map(e).contains_key(start_keys(e)[j]),
    decreases e.len(),
{
    if e.len() > 0 {
        lemma_start_keys_are_rows(e.drop_last());
        let p = start_keys(e.drop_last());
        assert forall|j: int| 0 <= j < start_keys(e).len() implies eligible(#[trigger] start_keys(e)[j])
            && entries_map(e).contains_key(start_keys(e)[j]) by {
            if j < p.len() {
                assert(start_keys(e)[j] == p[j]);
            }
        }
    }
}

pub proof fn lemma_start_keys_complete(e: Seq<Transition>, s: StateSeq)
    requires
        entries_map(e).contains_key(s),
        eligible(s),
    ensures
        start_keys(e).contains(s),
    decreases e.len(),
{
    if e.len() > 0 {
        if s == e.last().key() {
            assert(start_keys(e).last() == s);
        } else {
            lemma_start_keys_complete(e.drop_last(), s);
            let p = start_keys(e.drop_last());
            let j = choose|j: int| 0 <= j < p.len() && p[j] == s;
            if eligible(e.last().key()) {
                assert(start_keys(e)[j] == s);
            } else {
                assert(start_keys(e)[j] == s);
            }
        }
    }
}

/// The start states are exactly the states of the table whose first token
/// begins with an uppercase letter.
pub proof fn law_start_candidates(m: MarkovChain, s: StateSeq)
    ensures
        m.start_candidates().contains(s) <==> m.table().contains_key(s) && eligible(s),
{
    lemma_start_keys_are_rows(m.rows());
    if m.start_candidates().contains(s) {
        let j = choose|j: int| 0 <= j < m.start_candidates().len() && m.start_candidates()[j] == s;
        assert(eligible(m.start_candidates()[j]));
    }
    if m.table().contains_key(s) && eligible(s) {
        lemma_start_keys_complete(m.rows(), s);
    }
}

/// Whether the state may begin a sentence.
fn is_start(state: &Vec<String>) -> (r: bool)
    ensures
        r == eligible(words_view(state@)),
{
    if state.len() == 0 {
        return false;
    }
    match first_char(state[0].as_str()) {
        Some(c) => char_is_uppercase(c),
        None => false,
    }
}

/// The tokens joined by single spaces.
pub fn join_words(words: &Vec<String>) -> (r: String)
    ensures
        r@ == join_spaces(words_view(words@)),
{
    let mut s = String::new();
    let mut i: usize = 0;
    proof {
        reveal_strlit(" ");
    }
    while i < words.len()
        invariant
            0 <= i <= words@.len(),
            s@ == join_spaces(words_view(words@).subrange(0, i as int)),
            " "@ == seq![' '],
        decreases words@.len() - i,
    {
        let ghost wv = words_view(words@);
        assert(wv.subrange(0, i + 1).drop_last() =~= wv.subrange(0, i as int));
        if i > 0 {
            s.append(" ");
        } else {
            assert(wv.subrange(0, 0).len() == 0);
        }
        s.append(words[i].as_str());
        assert(s@ =~= join_spaces(wv.subrange(0, i + 1)));
        i = i + 1;
    }
    assert(words_view(words@).subrange(0, words@.len() as int) =~= words_view(words@));
    s
}

} // verus!
