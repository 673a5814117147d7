//! Generation: the lazy walk over the table and the text it says.

use crate::chain::RawMarkovChain;
use crate::model::{
    all_known, backoff, is_walk, joined, known_context, known_handles, lemma_joined_push,
    lemma_member_is_known, lemma_no_room_no_entries, lemma_walk_extends, lemma_window_advances, lemma_words_push,
    may_follow, says, seed_window, slide, suffix_from, window_at, words_of, yields,
};
use crate::random::draw;
use crate::table::{contents_of, holds_bucket, key_fits, table_get, table_values};
use crate::tokenizer::{regex_tokens, texts_of};
use vstd::prelude::*;
use vstd::slice::slice_subrange;
use vstd::string::StringExecFns;

verus! {

/// A walk over a chain that yields one token per step.
///
/// It holds the window of the handles said last and draws from the random
/// number generator it was given; it cannot be started again.
pub struct MarkovChainIter<'a> {
    chain: &'a RawMarkovChain,
    count: usize,
    rng: &'a mut rand::rngs::StdRng,
    prev: Vec<usize>,
}

impl<'a> MarkovChainIter<'a> {
    /// The chain that is walked.
    pub closed spec fn chain(&self) -> RawMarkovChain {
        *self.chain
    }

    /// The number of steps that are still to come.
    pub closed spec fn remaining(&self) -> nat {
        self.count as nat
    }

    /// The handles said last, oldest first.
    pub closed spec fn window(&self) -> Seq<usize> {
        self.prev@
    }

    /// The random number generator, in the state it is in.
    pub closed spec fn generator(&self) -> rand::rngs::StdRng {
        *self.rng
    }

    /// Whether the walk fits its chain: the chain is well formed, and the
    /// window holds known handles, no more than the state size.
    pub open spec fn wf(&self) -> bool {
        &&& self.chain().wf()
        &&& all_known(self.window(), self.chain().vocabulary().len())
        &&& self.window().len() <= self.chain().spec_state_size()
    }

    /// Sets a walk up at the given window.
    pub(crate) fn start(
        chain: &'a RawMarkovChain,
        count: usize,
        rng: &'a mut rand::rngs::StdRng,
        prev: Vec<usize>,
    ) -> (walk: MarkovChainIter<'a>)
        ensures
            walk.chain() == *chain,
            walk.remaining() == count,
            walk.window() == prev@,
            walk.generator() == *old(rng),
    {
        MarkovChainIter { chain, count, rng, prev }
    }

    /// Takes one step and returns the handle that was said.
    ///
    /// Returns `None` once all steps are taken, and at every step if the
    /// table is empty; the window and the generator then stay as they are.
    /// Otherwise the handle is one that may follow the window, and it joins
    /// the window.
    pub fn next_handle(&mut self) -> (next: Option<usize>)
        requires
            old(self).wf(),
        ensures
            final(self).wf(),
            final(self).chain() == old(self).chain(),
            old(self).remaining() == 0 ==> final(self).remaining() == 0,
            old(self).remaining() > 0 ==> final(self).remaining() == old(self).remaining() - 1,
            next is None <==> old(self).remaining() == 0 || old(self).chain().spec_len() == 0,
            old(self).chain().spec_state_size() == 0 ==> next is None,
            next is None ==> final(self).window() == old(self).window(),
            next is None ==> final(self).generator() == old(self).generator(),
            old(self).remaining() == 0 ==> final(self).generator() == old(self).generator(),
            next is Some ==> may_follow(old(self).chain().entries(), old(self).window(), next->0),
            next is Some ==> next->0 < old(self).chain().vocabulary().len(),
            next is Some ==> final(self).window() == slide(
                old(self).window(),
                next->0,
                old(self).chain().spec_state_size() as nat,
            ),
    {
        if self.count == 0 {
            return None;
        }
        self.count = self.count - 1;
        let next = match self.chain.next_step(self.prev.as_slice(), self.rng) {
            Some(next) => next,
            None => {
                return None;
            },
        };
        proof {
            let contexts = self.chain().entries().dom();
            assert(contexts.contains(contexts.choose()));
            assert(self.chain().entries().contains_key(contexts.choose()));
        }
        if self.prev.len() == self.chain.state_size() {
            self.prev.remove(0);
        }
        self.prev.push(next);
        assert(self.window() =~= slide(
            old(self).window(),
            next,
            old(self).chain().spec_state_size() as nat,
        ));
        Some(next)
    }

    /// Takes one step and returns the token that was said.
    ///
    /// Returns `None` once all steps are taken, and at every step if the
    /// table is empty; nothing is drawn from the generator then.
    pub fn next(&mut self) -> (word: Option<&'a str>)
        requires
            old(self).wf(),
        ensures
            final(self).wf(),
            final(self).chain() == old(self).chain(),
            old(self).remaining() == 0 ==> final(self).remaining() == 0,
            old(self).remaining() > 0 ==> final(self).remaining() == old(self).remaining() - 1,
            word is None <==> old(self).remaining() == 0 || old(self).chain().spec_len() == 0,
            old(self).chain().spec_state_size() == 0 ==> word is None,
            word is None ==> final(self).window() == old(self).window(),
            word is None ==> final(self).generator() == old(self).generator(),
            old(self).remaining() == 0 ==> final(self).generator() == old(self).generator(),
            word is Some ==> exists|next: usize|
                {
                    &&& #[trigger] may_follow(
                        old(self).chain().entries(),
                        old(self).window(),
                        next,
                    )
                    &&& next < old(self).chain().vocabulary().len()
                    &&& word->0@ == old(self).chain().vocabulary()[next as int]
                    &&& final(self).window() == slide(
                        old(self).window(),
                        next,
                        old(self).chain().spec_state_size() as nat,
                    )
                },
    {
        let chain: &'a RawMarkovChain = self.chain;
        match self.next_handle() {
            Some(next) => Some(chain.resolve(next)),
            None => None,
        }
    }

    /// Takes all the steps that are left and returns the tokens in order.
    ///
    /// Where no step is left, or the table is empty, nothing is drawn from
    /// the generator.
    pub fn collect(&mut self) -> (words: Vec<&'a str>)
        requires
            old(self).wf(),
        ensures
            final(self).wf(),
            final(self).chain() == old(self).chain(),
            old(self).chain().spec_len() != 0 ==> final(self).remaining() == 0,
            yields(
                old(self).chain().entries(),
                old(self).chain().vocabulary(),
                old(self).chain().spec_state_size() as nat,
                old(self).window(),
                if old(self).chain().spec_len() == 0 {
                    0
                } else {
                    old(self).remaining()
                },
                texts_of(words@),
            ),
            old(self).remaining() == 0 ==> final(self).generator() == old(self).generator(),
            old(self).chain().spec_len() == 0 ==> final(self).generator() == old(
                self,
            ).generator(),
    {
        let chain: &'a RawMarkovChain = self.chain;
        let ghost start = self.window();
        let ghost total = self.remaining();
        let ghost state_size = chain.spec_state_size() as nat;
        let ghost mut picks: Seq<usize> = Seq::empty();
        let mut words: Vec<&'a str> = Vec::new();
        proof {
            assert(start + picks.take(0) =~= start);
            assert(texts_of(words@) =~= words_of(chain.vocabulary(), picks));
        }
        while self.count > 0
            invariant
                self.wf(),
                self.chain() == *chain,
                old(self).chain() == *chain,
                start == old(self).window(),
                total == old(self).remaining(),
                start.len() <= state_size,
                state_size == chain.spec_state_size(),
                chain.spec_len() == 0 ==> picks.len() == 0,
                chain.spec_len() != 0 ==> picks.len() + self.remaining() == total,
                picks.len() == 0 ==> self.generator() == old(self).generator(),
                is_walk(chain.entries(), state_size, start, picks),
                all_known(picks, chain.vocabulary().len()),
                self.window() == window_at(start, picks, state_size, picks.len() as int),
                texts_of(words@) == words_of(chain.vocabulary(), picks),
            decreases self.remaining(),
        {
            match self.next_handle() {
                Some(next) => {
                    let word = chain.resolve(next);
                    proof {
                        let longer = picks.push(next);
                        lemma_walk_extends(chain.entries(), state_size, start, picks, next);
                        lemma_window_advances(start, longer, state_size, picks.len() as int);
                        assert(longer.take(picks.len() as int) =~= picks);
                        assert(picks.take(picks.len() as int) =~= picks);
                        lemma_words_push(chain.vocabulary(), picks, next);
                        assert(texts_of(words@.push(word)) =~= texts_of(words@).push(word@));
                        picks = longer;
                    }
                    words.push(word);
                },
                None => {
                    return words;
                },
            }
        }
        words
    }
}

/// Joins `words` with one space between neighbours and none at either end.
pub fn join_words(words: &Vec<&str>) -> (text: String)
    ensures
        text@ == joined(texts_of(words@)),
{
    let ghost texts = texts_of(words@);
    let mut text = String::new();
    let mut i: usize = 0;
    assert(texts.take(0) =~= Seq::<Seq<char>>::empty());
    while i < words.len()
        invariant
            i <= words@.len(),
            texts == texts_of(words@),
            text@ == joined(texts.take(i as int)),
        decreases words@.len() - i,
    {
        proof {
            reveal_strlit(" ");
            lemma_joined_push(texts.take(i as int), texts[i as int]);
            assert(texts.take(i + 1) =~= texts.take(i as int).push(texts[i as int]));
            assert(" "@ =~= seq![' ']);
        }
        if i > 0 {
            text.append(" ");
        }
        text.append(words[i]);
        i = i + 1;
    }
    assert(texts.take(texts.len() as int) =~= texts);
    text
}

impl RawMarkovChain {
    /// Returns a next step that fits the given previous state.
    ///
    /// The longest suffix of `prev` that has a bucket decides: the step is
    /// drawn from that bucket. Where no suffix has one, a bucket is drawn
    /// from the whole table first. Returns `None` if and only if the table
    /// is empty, and `rng` is then left as it was; which handle is drawn
    /// otherwise is up to `rng`.
    pub fn next_step(&self, prev: &[usize], rng: &mut rand::rngs::StdRng) -> (next: Option<usize>)
        requires
            self.wf(),
            key_fits(prev@),
        ensures
            next is None <==> self.spec_len() == 0,
            next is None ==> *final(rng) == *old(rng),
            self.spec_state_size() == 0 ==> next is None,
            next is Some ==> may_follow(self.entries(), prev@, next->0),
            next is Some ==> next->0 < self.vocabulary().len(),
    {
        let mut i: usize = 0;
        while i < prev.len()
            invariant
                i <= prev@.len(),
                self.wf(),
                key_fits(prev@),
                *rng == *old(rng),
                backoff(self.entries(), prev@, 0) == backoff(self.entries(), prev@, i as int),
            decreases prev@.len() - i,
        {
            let suffix = slice_subrange(prev, i, prev.len());
            assert(suffix@ == suffix_from(prev@, i as int));
            match table_get(&self.items, suffix) {
                Some(bucket) => {
                    let next = bucket.get_rand(rng);
                    proof {
                        assert(self.entries().dom().contains(suffix@));
                        assert(known_context(self.entries(), prev@) == Some(suffix@));
                        lemma_member_is_known(bucket@, self.vocabulary().len(), next->0);
                    }
                    return next;
                },
                None => {},
            }
            i = i + 1;
        }
        let buckets = table_values(&self.items);
        match draw(buckets.as_slice(), rng) {
            Some(bucket) => {
                let next = bucket.get_rand(rng);
                proof {
                    let i = choose|i: int| 0 <= i < buckets@.len() && buckets@[i] == *bucket;
                    assert(holds_bucket(self.entries(), contents_of(buckets@)[i]));
                    let context = choose|context: Seq<usize>| #[trigger]
                        self.entries().contains_key(context) && self.entries()[context]
                            == bucket@;
                    assert(self.entries().dom().contains(context));
                    lemma_member_is_known(bucket@, self.vocabulary().len(), next->0);
                }
                next
            },
            None => None,
        }
    }

    /// The window that a start phrase leaves: its tokens are looked up in
    /// the interner, those that are not interned are passed over, and the
    /// last `state_size` of the handles found are kept.
    pub fn window_of(&self, start: &str) -> (window: Vec<usize>)
        requires
            self.wf(),
        ensures
            window@ == seed_window(
                self.vocabulary(),
                regex_tokens(self.tokenizer(), start@),
                self.spec_state_size() as nat,
            ),
            all_known(window@, self.vocabulary().len()),
            window@.len() <= self.spec_state_size(),
    {
        let tokens = self.tokens(start);
        let ghost texts = texts_of(tokens@);
        let mut known: Vec<usize> = Vec::new();
        let mut i: usize = 0;
        assert(texts.take(0) =~= Seq::<Seq<char>>::empty());
        while i < tokens.len()
            invariant
                i <= tokens@.len(),
                texts == texts_of(tokens@),
                self.wf(),
                known@ == known_handles(self.vocabulary(), texts.take(i as int)),
                all_known(known@, self.vocabulary().len()),
            decreases tokens@.len() - i,
        {
            proof {
                assert(texts.take(i + 1).drop_last() =~= texts.take(i as int));
                assert(texts.take(i + 1).last() == tokens@[i as int]@);
            }
            match self.lookup(tokens[i]) {
                Some(handle) => {
                    proof {
                        self.vocabulary().index_of_first_ensures(tokens@[i as int]@);
                    }
                    known.push(handle);
                },
                None => {},
            }
            i = i + 1;
        }
        assert(texts.take(texts.len() as int) =~= texts);
        let state_size = self.state_size();
        if known.len() <= state_size {
            return known;
        }
        let first = known.len() - state_size;
        let mut window: Vec<usize> = Vec::new();
        let mut j: usize = first;
        while j < known.len()
            invariant
                first <= j <= known@.len(),
                first == known@.len() - state_size,
                window@ == known@.subrange(first as int, j as int),
                all_known(known@, self.vocabulary().len()),
            decreases known@.len() - j,
        {
            window.push(known[j]);
            assert(window@ =~= known@.subrange(first as int, j + 1));
            j = j + 1;
        }
        window
    }

    /// Does what `generate` does, but yields the tokens one at a time.
    /// Nothing is drawn from `rng` before the first step.
    pub fn iter<'a>(&'a self, count: usize, rng: &'a mut rand::rngs::StdRng) -> (walk:
        MarkovChainIter<'a>)
        requires
            self.wf(),
        ensures
            walk.wf(),
            walk.chain() == *self,
            walk.remaining() == count,
            walk.window() == Seq::<usize>::empty(),
            walk.generator() == *old(rng),
    {
        MarkovChainIter::start(self, count, rng, Vec::new())
    }

    /// Does what `generate_start` does, but yields the tokens one at a time.
    /// Nothing is drawn from `rng` before the first step.
    pub fn iter_start<'a>(
        &'a self,
        start: &str,
        count: usize,
        rng: &'a mut rand::rngs::StdRng,
    ) -> (walk: MarkovChainIter<'a>)
        requires
            self.wf(),
        ensures
            walk.wf(),
            walk.chain() == *self,
            walk.remaining() == count,
            walk.window() == seed_window(
                self.vocabulary(),
                regex_tokens(self.tokenizer(), start@),
                self.spec_state_size() as nat,
            ),
            walk.generator() == *old(rng),
    {
        let prev = self.window_of(start);
        MarkovChainIter::start(self, count, rng, prev)
    }

    /// Generates text of the given length: `length` tokens with a space
    /// between neighbours. The first token is drawn from a bucket drawn at random.
    ///
    /// Returns `None` if and only if the table is empty. Nothing is drawn
    /// from `rng` then, nor for a text of length zero.
    pub fn generate(&self, length: usize, rng: &mut rand::rngs::StdRng) -> (text: Option<String>)
        requires
            self.wf(),
        ensures
            text is None <==> self.spec_len() == 0,
            text is None ==> *final(rng) == *old(rng),
            length == 0 ==> *final(rng) == *old(rng),
            self.spec_state_size() == 0 ==> text is None,
            text is Some ==> says(
                self.entries(),
                self.vocabulary(),
                self.spec_state_size() as nat,
                Seq::empty(),
                length as nat,
                text->0@,
            ),
    {
        proof {
            if self.spec_state_size() == 0 {
                lemma_no_room_no_entries(self.entries(), self.vocabulary());
            }
        }
        if self.is_empty() {
            return None;
        }
        if length == 0 {
            proof {
                let nothing = Seq::<usize>::empty();
                let window = Seq::<usize>::empty();
                let state_size = self.spec_state_size() as nat;
                assert(is_walk(self.entries(), state_size, window, nothing));
                assert(words_of(self.vocabulary(), nothing) =~= Seq::<Seq<char>>::empty());
                assert(yields(
                    self.entries(),
                    self.vocabulary(),
                    state_size,
                    window,
                    0,
                    Seq::<Seq<char>>::empty(),
                ));
                assert(joined(Seq::<Seq<char>>::empty()) =~= Seq::<char>::empty());
            }
            return Some(String::new());
        }
        let mut walk = self.iter(length, rng);
        let words = walk.collect();
        Some(join_words(&words))
    }

    /// Generates text of the given length that goes on from the given start
    /// phrase. The phrase itself is not part of the text.
    ///
    /// Returns `None` if and only if the table is empty. Nothing is drawn
    /// from `rng` then, nor for a text of length zero.
    pub fn generate_start(&self, start: &str, length: usize, rng: &mut rand::rngs::StdRng) -> (text:
        Option<String>)
        requires
            self.wf(),
        ensures
            text is None <==> self.spec_len() == 0,
            text is None ==> *final(rng) == *old(rng),
            length == 0 ==> *final(rng) == *old(rng),
            self.spec_state_size() == 0 ==> text is None,
            text is Some ==> says(
                self.entries(),
                self.vocabulary(),
                self.spec_state_size() as nat,
                seed_window(
                    self.vocabulary(),
                    regex_tokens(self.tokenizer(), start@),
                    self.spec_state_size() as nat,
                ),
                length as nat,
                text->0@,
            ),
    {
        proof {
            if self.spec_state_size() == 0 {
                lemma_no_room_no_entries(self.entries(), self.vocabulary());
            }
        }
        if self.is_empty() {
            return None;
        }
        if length == 0 {
            proof {
                let nothing = Seq::<usize>::empty();
                let window = seed_window(
                    self.vocabulary(),
                    regex_tokens(self.tokenizer(), start@),
                    self.spec_state_size() as nat,
                );
                let state_size = self.spec_state_size() as nat;
                assert(is_walk(self.entries(), state_size, window, nothing));
                assert(words_of(self.vocabulary(), nothing) =~= Seq::<Seq<char>>::empty());
                assert(yields(
                    self.entries(),
                    self.vocabulary(),
                    state_size,
                    window,
                    0,
                    Seq::<Seq<char>>::empty(),
                ));
                assert(joined(Seq::<Seq<char>>::empty()) =~= Seq::<char>::empty());
            }
            return Some(String::new());
        }
        let mut walk = self.iter_start(start, length, rng);
        let words = walk.collect();
        Some(join_words(&words))
    }
}

} // verus!
