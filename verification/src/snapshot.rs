//! Taking a chain apart into plain data and putting it together again.

use crate::bucket::{copy_of, ChainItem};
use crate::chain::RawMarkovChain;
use crate::interner::{
    interned, interner_get_or_intern, interner_len, interner_new, interner_resolve, MAX_HANDLES,
};
use crate::model::{all_known, lists, no_entries, pair_fits, parts_fit};
use crate::table::{pairs_of, table_get, table_insert, table_new, table_pairs};
use crate::tokenizer::texts_of;
use vstd::prelude::*;

verus! {

impl RawMarkovChain {
    /// Returns every interned text, each at the position that is its handle.
    pub fn words(&self) -> (words: Vec<&str>)
        requires
            self.wf(),
        ensures
            texts_of(words@) == self.vocabulary(),
    {
        let n = interner_len(&self.cache);
        let mut words: Vec<&str> = Vec::new();
        let mut handle: usize = 0;
        while handle < n
            invariant
                handle <= n,
                n == self.vocabulary().len(),
                n <= MAX_HANDLES,
                texts_of(words@) == self.vocabulary().take(handle as int),
            decreases n - handle,
        {
            let ghost sofar = texts_of(words@);
            let word = interner_resolve(&self.cache, handle);
            words.push(word);
            assert(texts_of(words@) =~= sofar.push(word@));
            assert(sofar.push(word@) =~= self.vocabulary().take(handle + 1));
            handle = handle + 1;
        }
        assert(self.vocabulary().take(n as int) =~= self.vocabulary());
        words
    }

    /// Returns every context of the table with a copy of its bucket, in no
    /// particular order.
    pub fn buckets(&self) -> (pairs: Vec<(Vec<usize>, Vec<usize>)>)
        ensures
            lists(pairs_of(pairs@), self.entries()),
    {
        table_pairs(&self.items)
    }

    /// Puts a chain together from its parts: the state size, the tokenizer,
    /// the interned texts in the order of their handles, and the contexts
    /// with their buckets.
    ///
    /// Returns `None` if and only if the parts do not fit together: a text
    /// stands twice, there are more texts than handles, a context is empty
    /// or longer than the state size or stands twice, a bucket is empty, or
    /// a handle is not that of a text.
    pub fn from_parts(
        state_size: usize,
        regex: regex::Regex,
        vocabulary: &Vec<&str>,
        pairs: &Vec<(Vec<usize>, Vec<usize>)>,
    ) -> (chain: Option<RawMarkovChain>)
        ensures
            chain is Some <==> parts_fit(
                state_size as nat,
                texts_of(vocabulary@),
                pairs_of(pairs@),
            ),
            chain is Some ==> chain->0.wf(),
            chain is Some ==> chain->0.spec_state_size() == state_size,
            chain is Some ==> chain->0.tokenizer() == regex,
            chain is Some ==> chain->0.vocabulary() == texts_of(vocabulary@),
            chain is Some ==> lists(pairs_of(pairs@), chain->0.entries()),
    {
        let ghost texts = texts_of(vocabulary@);
        let ghost listed = pairs_of(pairs@);
        let known = vocabulary.len();
        if known > MAX_HANDLES {
            return None;
        }
        let mut cache = interner_new();
        let mut i: usize = 0;
        assert(texts.take(0) =~= interned(cache));
        while i < known
            invariant
                i <= known,
                known == vocabulary@.len(),
                known <= MAX_HANDLES,
                texts == texts_of(vocabulary@),
                interned(cache) == texts.take(i as int),
                interned(cache).no_duplicates(),
            decreases known - i,
        {
            let ghost held = interned(cache);
            let handle = interner_get_or_intern(&mut cache, vocabulary[i]);
            if handle != i {
                proof {
                    assert(held.contains(texts[i as int]));
                    let j = choose|j: int| 0 <= j < held.len() && held[j] == texts[i as int];
                    assert(texts[j] == texts[i as int]);
                }
                return None;
            }
            assert(interned(cache) =~= texts.take(i + 1));
            i = i + 1;
        }
        assert(texts.take(known as int) =~= texts);
        let mut chain = RawMarkovChain { items: table_new(), state_size, regex, cache };
        assert(chain.entries() =~= no_entries());
        let mut k: usize = 0;
        while k < pairs.len()
            invariant
                k <= pairs@.len(),
                known == texts.len(),
                listed == pairs_of(pairs@),
                texts == texts_of(vocabulary@),
                chain.wf(),
                chain.vocabulary() == texts,
                chain.spec_state_size() == state_size,
                chain.tokenizer() == regex,
                lists(listed.take(k as int), chain.entries()),
                forall|i: int|
                    0 <= i < k ==> pair_fits(#[trigger] listed[i], known as nat, state_size as nat),
            decreases pairs@.len() - k,
        {
            let context = &pairs[k].0;
            let bucket = &pairs[k].1;
            let ghost before = chain.entries();
            assert(listed[k as int] == (context@, bucket@));
            if context.len() == 0 || context.len() > state_size || bucket.len() == 0 || !all_below(
                context,
                known,
            ) || !all_below(bucket, known) {
                assert(!pair_fits(listed[k as int], known as nat, state_size as nat));
                return None;
            }
            if table_get(&chain.items, context.as_slice()).is_some() {
                proof {
                    let j = choose|j: int|
                        0 <= j < listed.take(k as int).len() && (#[trigger] listed.take(
                            k as int,
                        )[j]).0 == context@;
                    assert(listed[j].0 == listed[k as int].0);
                }
                return None;
            }
            let copy = copy_of(bucket);
            table_insert(&mut chain.items, context.as_slice(), ChainItem::from_items(copy));
            proof {
                let after = chain.entries();
                let longer = listed.take(k + 1);
                assert(after == before.insert(context@, bucket@));
                assert forall|j: int| 0 <= j < longer.len() implies after.contains_key(
                    (#[trigger] longer[j]).0,
                ) && after[longer[j].0] == longer[j].1 by {
                    if j < k {
                        assert(longer[j] == listed.take(k as int)[j]);
                        assert(before.contains_key(listed.take(k as int)[j].0));
                    }
                }
                assert forall|c: Seq<usize>| #[trigger] after.contains_key(c) implies exists|j: int|
                    0 <= j < longer.len() && (#[trigger] longer[j]).0 == c by {
                    if c == context@ {
                        assert(longer[k as int].0 == c);
                    } else {
                        assert(before.contains_key(c));
                        let j = choose|j: int|
                            0 <= j < listed.take(k as int).len() && (#[trigger] listed.take(
                                k as int,
                            )[j]).0 == c;
                        assert(longer[j].0 == c);
                    }
                }
                assert forall|a: int, b: int| 0 <= a < b < longer.len() implies (
                #[trigger] longer[a]).0 != (#[trigger] longer[b]).0 by {
                    if b < k {
                        assert(longer[a] == listed.take(k as int)[a]);
                        assert(longer[b] == listed.take(k as int)[b]);
                    } else {
                        assert(longer[a] == listed.take(k as int)[a]);
                        assert(before.contains_key(listed.take(k as int)[a].0));
                    }
                }
                assert forall|c: Seq<usize>| #[trigger] after.contains_key(c) implies {
                    &&& 1 <= c.len() <= state_size
                    &&& after[c].len() >= 1
                    &&& all_known(c, texts.len())
                    &&& all_known(after[c], texts.len())
                } by {
                    if c != context@ {
                        assert(before.contains_key(c));
                    }
                }
            }
            k = k + 1;
        }
        proof {
            assert(listed.take(pairs@.len() as int) =~= listed);
        }
        Some(chain)
    }
}

/// Whether every handle of `handles` is below `bound`.
fn all_below(handles: &Vec<usize>, bound: usize) -> (below: bool)
    ensures
        below == all_known(handles@, bound as nat),
{
    let mut i: usize = 0;
    while i < handles.len()
        invariant
            i <= handles@.len(),
            forall|j: int| 0 <= j < i ==> handles@[j] < bound,
        decreases handles@.len() - i,
    {
        if handles[i] >= bound {
            return false;
        }
        i = i + 1;
    }
    true
}

} // verus!
