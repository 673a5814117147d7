//! Training: how text becomes entries of the table.

use crate::bucket::{repeated, ChainItem};
use crate::chain::RawMarkovChain;
use crate::interner::{interner_get, interner_get_or_intern, interner_len, MAX_HANDLES};
use crate::model::{
    has_room, intern_one_while_room, intern_while_room, lemma_full_vocabulary_stays,
    lemma_intern_all_grows, taught,
};
use crate::model::{
    all_known, bucket_of, handles_of, intern_all, intern_one, lemma_no_weight_no_sightings,
    lemma_nothing_sighted_nothing_trained, lemma_training_begins, lemma_training_ends,
    lemma_training_next_window, lemma_training_step, partly_trained, sightings, spells, trained,
    window_len,
};
use crate::table::{table_get_mut, table_insert};
use crate::tokenizer::{find_tokens, regex_tokens, texts_of};
use vstd::prelude::*;
use vstd::slice::slice_subrange;

verus! {

impl RawMarkovChain {
    /// Appends `count` copies of `successor` to the bucket of `context`,
    /// creating the bucket if the table has none. A count of zero changes nothing.
    pub fn add_occurrence(&mut self, context: &[usize], successor: usize, count: usize)
        requires
            old(self).wf(),
            1 <= context@.len() <= old(self).spec_state_size(),
            all_known(context@, old(self).vocabulary().len()),
            successor < old(self).vocabulary().len(),
        ensures
            final(self).wf(),
            final(self).vocabulary() == old(self).vocabulary(),
            final(self).spec_state_size() == old(self).spec_state_size(),
            final(self).tokenizer() == old(self).tokenizer(),
            count == 0 ==> final(self).entries() == old(self).entries(),
            count > 0 ==> final(self).entries() == old(self).entries().insert(
                context@,
                bucket_of(old(self).entries(), context@) + repeated(successor, count as nat),
            ),
    {
        if count == 0 {
            return ;
        }
        let ghost before = self.entries();
        let ghost grown = bucket_of(before, context@) + repeated(successor, count as nat);
        match table_get_mut(&mut self.items, context) {
            Some(bucket) => {
                bucket.add_weighted(successor, count);
            },
            None => {
                assert(Seq::<usize>::empty() + repeated(successor, count as nat) =~= repeated(
                    successor,
                    count as nat,
                ));
                table_insert(&mut self.items, context, ChainItem::new_weighted(successor, count));
            },
        }
        assert(self.entries() == before.insert(context@, grown));
        assert(grown.len() >= 1);
        assert(all_known(grown, self.vocabulary().len())) by {
            assert forall|i: int| 0 <= i < grown.len() implies grown[i] < self.vocabulary().len() by {
                if i < bucket_of(before, context@).len() {
                    assert(before.contains_key(context@));
                    assert(grown[i] == before[context@][i]);
                } else {
                    assert(grown[i] == successor);
                }
            }
        }
        assert forall|c: Seq<usize>| #[trigger] self.entries().contains_key(c) implies {
            &&& 1 <= c.len() <= self.spec_state_size()
            &&& self.entries()[c].len() >= 1
            &&& all_known(c, self.vocabulary().len())
            &&& all_known(self.entries()[c], self.vocabulary().len())
        } by {
            if c != context@ {
                assert(before.contains_key(c));
            }
        }
    }

    /// Interns every token, first to last, and returns their handles.
    ///
    /// A token that is interned already keeps its handle, so it is the
    /// number of new texts that the handles limit, not the number of tokens.
    /// Returns `None` at the first new text for which no handle is left; the
    /// texts before it are interned by then.
    fn intern_tokens(&mut self, tokens: &Vec<&str>) -> (handles: Option<Vec<usize>>)
        requires
            old(self).wf(),
        ensures
            final(self).wf(),
            final(self).entries() == old(self).entries(),
            final(self).spec_state_size() == old(self).spec_state_size(),
            final(self).tokenizer() == old(self).tokenizer(),
            final(self).vocabulary() == intern_while_room(
                old(self).vocabulary(),
                texts_of(tokens@),
            ),
            handles is Some <==> has_room(old(self).vocabulary(), texts_of(tokens@)),
            handles is Some ==> final(self).vocabulary() == intern_all(
                old(self).vocabulary(),
                texts_of(tokens@),
            ),
            handles is Some ==> handles->0@ == handles_of(
                final(self).vocabulary(),
                texts_of(tokens@),
            ),
            handles is Some ==> all_known(handles->0@, final(self).vocabulary().len()),
    {
        let ghost texts = texts_of(tokens@);
        let ghost first = self.vocabulary();
        let mut handles: Vec<usize> = Vec::new();
        let mut i: usize = 0;
        while i < tokens.len()
            invariant
                i <= tokens@.len(),
                texts == texts_of(tokens@),
                first == old(self).vocabulary(),
                self.wf(),
                self.entries() == old(self).entries(),
                self.spec_state_size() == old(self).spec_state_size(),
                self.tokenizer() == old(self).tokenizer(),
                self.vocabulary() == intern_all(first, texts.take(i as int)),
                self.vocabulary() == intern_while_room(first, texts.take(i as int)),
                spells(self.vocabulary(), handles@, texts.take(i as int)),
            decreases tokens@.len() - i,
        {
            let ghost known = self.vocabulary();
            let ghost old_handles = handles@;
            proof {
                assert(texts.take(i + 1).drop_last() =~= texts.take(i as int));
                assert(texts.take(i + 1).last() == texts[i as int]);
            }
            let handle = if interner_len(&self.cache) < MAX_HANDLES {
                interner_get_or_intern(&mut self.cache, tokens[i])
            } else {
                match interner_get(&self.cache, tokens[i]) {
                    Some(handle) => handle,
                    None => {
                        proof {
                            lemma_intern_all_grows(first, texts, i + 1);
                            lemma_full_vocabulary_stays(first, texts, i as int);
                        }
                        return None;
                    },
                }
            };
            handles.push(handle);
            proof {
                let grown = self.vocabulary();
                assert(grown == intern_one(known, texts[i as int]));
                assert(grown == intern_one_while_room(known, texts[i as int]));
                assert forall|j: int| 0 <= j < known.len() implies known[j] == grown[j] by {}
                assert(grown.no_duplicates());
                assert forall|c: Seq<usize>| #[trigger]
                    self.entries().contains_key(c) implies all_known(c, grown.len()) && all_known(
                    self.entries()[c],
                    grown.len(),
                ) by {
                    assert(all_known(c, known.len()));
                    assert(all_known(self.entries()[c], known.len()));
                }
                assert forall|j: int| 0 <= j < handles@.len() implies #[trigger] handles@[j]
                    < grown.len() && grown[handles@[j] as int] == texts.take(i + 1)[j] by {
                    if j < i {
                        assert(handles@[j] == old_handles[j]);
                        assert(old_handles[j] < known.len());
                        assert(known[old_handles[j] as int] == texts.take(i as int)[j]);
                    }
                }
            }
            i = i + 1;
        }
        proof {
            let vocabulary = self.vocabulary();
            assert(texts.take(texts.len() as int) =~= texts);
            assert forall|j: int| 0 <= j < handles@.len() implies #[trigger] handles@[j]
                == vocabulary.index_of(texts[j]) as usize && handles@[j] < vocabulary.len() by {
                assert(handles@[j] < vocabulary.len());
                assert(vocabulary[handles@[j] as int] == texts[j]);
                vocabulary.index_of_first_ensures(texts[j]);
            }
            assert(handles@ =~= handles_of(vocabulary, texts));
        }
        Some(handles)
    }

    /// Tokenizes `text` and trains on its tokens with the given weight.
    fn train(&mut self, text: &str, weight: usize)
        requires
            old(self).wf(),
        ensures
            final(self).wf(),
            final(self).spec_state_size() == old(self).spec_state_size(),
            final(self).tokenizer() == old(self).tokenizer(),
            final(self).learned(*old(self), regex_tokens(old(self).tokenizer(), text@), weight as nat),
    {
        let tokens = find_tokens(&self.regex, text);
        match self.intern_tokens(&tokens) {
            Some(handles) => {
                self.ingest_weighted(handles.as_slice(), weight);
            },
            None => {},
        }
    }

    /// Whether `self` is what `before` becomes by training on a text with
    /// the tokens `texts`.
    ///
    /// Where there is a handle for every new text, every token is interned,
    /// first to last, and the table is trained on the handles of the tokens.
    /// Where there is not, the texts are interned for as far as there is
    /// room, and the table stays as it was.
    pub open spec fn learned(&self, before: RawMarkovChain, texts: Seq<Seq<char>>, weight: nat) -> bool {
        &&& self.vocabulary() == intern_while_room(before.vocabulary(), texts)
        &&& self.entries() == taught(
            before.entries(),
            before.vocabulary(),
            texts,
            before.spec_state_size() as nat,
            weight,
        )
        &&& has_room(before.vocabulary(), texts) ==> self.vocabulary() == intern_all(
            before.vocabulary(),
            texts,
        )
    }

    /// Adds text as training data. The tokens are cut with the regular
    /// expression of the chain.
    ///
    /// Every token is interned first; a token that is interned already needs
    /// no handle. Should the interner run out of handles on a new text, the
    /// texts before it stay interned and the table is left as it was.
    pub fn add_text(&mut self, text: &str)
        requires
            old(self).wf(),
        ensures
            final(self).wf(),
            final(self).spec_state_size() == old(self).spec_state_size(),
            final(self).tokenizer() == old(self).tokenizer(),
            final(self).learned(*old(self), regex_tokens(old(self).tokenizer(), text@), 1),
    {
        self.train(text, 1);
    }

    /// Adds text as training data with a weight: every sighting counts
    /// `weight` times. With a weight of zero nothing happens, not even
    /// interning. With any other weight the vocabulary and the contexts are
    /// those that `weight` calls of `add_text` leave, and every bucket holds
    /// every handle as often.
    pub fn add_text_weighted(&mut self, text: &str, weight: usize)
        requires
            old(self).wf(),
        ensures
            final(self).wf(),
            final(self).spec_state_size() == old(self).spec_state_size(),
            final(self).tokenizer() == old(self).tokenizer(),
            weight == 0 ==> final(self).vocabulary() == old(self).vocabulary(),
            weight == 0 ==> final(self).entries() == old(self).entries(),
            weight > 0 ==> final(self).learned(
                *old(self),
                regex_tokens(old(self).tokenizer(), text@),
                weight as nat,
            ),
    {
        if weight == 0 {
            return ;
        }
        self.train(text, weight);
    }

    /// Trains on a sequence of handles, every sighting counting once.
    pub fn ingest(&mut self, tokens: &[usize])
        requires
            old(self).wf(),
            all_known(tokens@, old(self).vocabulary().len()),
        ensures
            final(self).wf(),
            final(self).vocabulary() == old(self).vocabulary(),
            final(self).spec_state_size() == old(self).spec_state_size(),
            final(self).tokenizer() == old(self).tokenizer(),
            final(self).entries() == trained(
                old(self).entries(),
                tokens@,
                old(self).spec_state_size() as nat,
                1,
            ),
    {
        self.ingest_weighted(tokens, 1);
    }

    /// Trains on a sequence of handles, every sighting counting `weight` times.
    ///
    /// A window of up to `state_size + 1` handles slides over `tokens`. The
    /// last handle of each window is recorded as a successor of every
    /// context that ends right before it within the window: the one handle
    /// before it, the two handles before it, and so on.
    pub fn ingest_weighted(&mut self, tokens: &[usize], weight: usize)
        requires
            old(self).wf(),
            all_known(tokens@, old(self).vocabulary().len()),
        ensures
            final(self).wf(),
            final(self).vocabulary() == old(self).vocabulary(),
            final(self).spec_state_size() == old(self).spec_state_size(),
            final(self).tokenizer() == old(self).tokenizer(),
            final(self).entries() == trained(
                old(self).entries(),
                tokens@,
                old(self).spec_state_size() as nat,
                weight as nat,
            ),
    {
        let ghost before = self.entries();
        let ghost state_size = self.spec_state_size() as nat;
        let n = tokens.len();
        if n == 0 || weight == 0 {
            proof {
                assert forall|c: Seq<usize>|
                    sightings(
                        tokens@,
                        window_len(tokens@.len(), state_size),
                        weight as nat,
                        c,
                        tokens@.len() as int,
                    ) == Seq::<usize>::empty() by {
                    if weight == 0 {
                        lemma_no_weight_no_sightings(
                            tokens@,
                            window_len(tokens@.len(), state_size),
                            c,
                            tokens@.len() as int,
                        );
                    }
                }
                lemma_nothing_sighted_nothing_trained(before, tokens@, state_size, weight as nat);
            }
            return ;
        }
        let width = if n <= self.state_size {
            n
        } else {
            self.state_size + 1
        };
        let mut at = width - 1;
        proof {
            lemma_training_begins(before, tokens@, width as nat, weight as nat);
        }
        while at < n
            invariant
                n == tokens@.len(),
                weight > 0,
                1 <= width <= n,
                width == window_len(tokens@.len(), state_size),
                width - 1 <= at <= n,
                state_size == self.spec_state_size(),
                self.wf(),
                all_known(tokens@, self.vocabulary().len()),
                self.vocabulary() == old(self).vocabulary(),
                self.tokenizer() == old(self).tokenizer(),
                self.entries() == partly_trained(
                    before,
                    tokens@,
                    width as nat,
                    weight as nat,
                    at as int,
                    1,
                ),
            decreases n - at,
        {
            let successor = tokens[at];
            let mut len: usize = 1;
            while len < width
                invariant
                    n == tokens@.len(),
                    weight > 0,
                    1 <= len <= width <= n,
                    width <= state_size + 1,
                    width - 1 <= at < n,
                    successor == tokens@[at as int],
                    state_size == self.spec_state_size(),
                    self.wf(),
                    all_known(tokens@, self.vocabulary().len()),
                    self.vocabulary() == old(self).vocabulary(),
                    self.tokenizer() == old(self).tokenizer(),
                    self.entries() == partly_trained(
                        before,
                        tokens@,
                        width as nat,
                        weight as nat,
                        at as int,
                        len as int,
                    ),
                decreases width - len,
            {
                let context = slice_subrange(tokens, at - len, at);
                proof {
                    lemma_training_step(
                        before,
                        tokens@,
                        width as nat,
                        weight as nat,
                        at as int,
                        len as int,
                    );
                }
                self.add_occurrence(context, successor, weight);
                len = len + 1;
            }
            proof {
                lemma_training_next_window(
                    before,
                    tokens@,
                    width as nat,
                    weight as nat,
                    at as int,
                );
            }
            at = at + 1;
        }
        proof {
            lemma_training_ends(before, tokens@, state_size, weight as nat);
        }
    }
}

} // verus!
