//! The chain itself: the table, the interner, the state size and the tokenizer.

use crate::bucket::ChainItem;
use crate::interner::{
    interned, interner_clone, interner_get, interner_len, interner_new, interner_resolve,
    interner_with_capacity,
};
use crate::model::{no_entries, well_formed};
use crate::table::{
    key_fits, table_clone, table_entries, table_get, table_len, table_new, table_with_capacity,
    Table,
};
use crate::tokenizer::{find_tokens, regex_clone, regex_tokens, texts_of};
use vstd::prelude::*;

verus! {

/// A Markov chain that is designed to generate text.
///
/// It owns the transition table, the interner that turns token texts into
/// handles, the largest context length it keeps statistics for, and the
/// regular expression that cuts text into tokens.
pub struct RawMarkovChain {
    pub(crate) items: Table,
    pub(crate) state_size: usize,
    pub(crate) regex: regex::Regex,
    pub(crate) cache: lasso::Rodeo,
}

/// The chain under its usual name.
pub type MarkovChain = RawMarkovChain;

impl RawMarkovChain {
    /// The transition table: for every recorded context, its bucket.
    pub open(crate) spec fn entries(&self) -> Map<Seq<usize>, Seq<usize>> {
        table_entries(self.items)
    }

    /// The interned texts, each at the position that is its handle.
    pub open(crate) spec fn vocabulary(&self) -> Seq<Seq<char>> {
        interned(self.cache)
    }

    /// The largest context length the chain keeps statistics for.
    pub open(crate) spec fn spec_state_size(&self) -> usize {
        self.state_size
    }

    /// The regular expression that cuts text into tokens.
    pub open(crate) spec fn tokenizer(&self) -> regex::Regex {
        self.regex
    }

    /// The number of contexts in the table.
    pub open spec fn spec_len(&self) -> nat {
        self.entries().dom().len()
    }

    /// Whether the table, the vocabulary and the state size fit together.
    pub open spec fn wf(&self) -> bool {
        well_formed(self.entries(), self.vocabulary(), self.spec_state_size() as nat)
    }

    /// Creates an empty chain.
    pub fn new(state_size: usize, regex: regex::Regex) -> (chain: RawMarkovChain)
        ensures
            chain.wf(),
            chain.entries() == no_entries(),
            chain.vocabulary() == Seq::<Seq<char>>::empty(),
            chain.spec_state_size() == state_size,
            chain.tokenizer() == regex,
    {
        let chain = RawMarkovChain { items: table_new(), state_size, regex, cache: interner_new() };
        assert(chain.entries() =~= no_entries());
        chain
    }

    /// Creates an empty chain whose table and interner have room for
    /// `capacity` entries before they grow.
    pub fn with_capacity(state_size: usize, capacity: usize, regex: regex::Regex) -> (chain:
        RawMarkovChain)
        requires
            capacity <= usize::MAX / 256,
        ensures
            chain.wf(),
            chain.entries() == no_entries(),
            chain.vocabulary() == Seq::<Seq<char>>::empty(),
            chain.spec_state_size() == state_size,
            chain.tokenizer() == regex,
    {
        let chain = RawMarkovChain {
            items: table_with_capacity(capacity),
            state_size,
            regex,
            cache: interner_with_capacity(capacity),
        };
        assert(chain.entries() =~= no_entries());
        chain
    }

    /// Cuts `text` into tokens with the regular expression of the chain.
    pub fn tokens<'t>(&self, text: &'t str) -> (tokens: Vec<&'t str>)
        ensures
            texts_of(tokens@) == regex_tokens(self.tokenizer(), text@),
    {
        find_tokens(&self.regex, text)
    }

    /// Returns the handle of `text` if it is interned. Nothing is interned
    /// on the way.
    pub fn lookup(&self, text: &str) -> (handle: Option<usize>)
        ensures
            handle is Some <==> self.vocabulary().contains(text@),
            handle is Some ==> handle->0 < self.vocabulary().len() && self.vocabulary()[handle->0 as int]
                == text@,
    {
        interner_get(&self.cache, text)
    }

    /// Returns the text that `handle` stands for.
    pub fn resolve(&self, handle: usize) -> (text: &str)
        requires
            self.wf(),
            handle < self.vocabulary().len(),
        ensures
            text@ == self.vocabulary()[handle as int],
    {
        interner_resolve(&self.cache, handle)
    }

    /// Returns the bucket recorded for `context`, if there is one.
    pub fn bucket(&self, context: &[usize]) -> (bucket: Option<&ChainItem>)
        requires
            key_fits(context@),
        ensures
            bucket is Some <==> self.entries().contains_key(context@),
            bucket is Some ==> bucket->0@ == self.entries()[context@],
    {
        table_get(&self.items, context)
    }

    /// Returns the number of contexts the chain has a bucket for.
    pub fn len(&self) -> (n: usize)
        ensures
            n == self.spec_len(),
    {
        table_len(&self.items)
    }

    /// Returns the number of texts that are interned.
    pub fn cache_len(&self) -> (n: usize)
        ensures
            n == self.vocabulary().len(),
    {
        interner_len(&self.cache)
    }

    /// Returns whether the chain has no bucket at all.
    pub fn is_empty(&self) -> (empty: bool)
        ensures
            empty == (self.spec_len() == 0),
    {
        self.len() == 0
    }

    /// Returns the state size.
    #[verifier::when_used_as_spec(spec_state_size)]
    pub fn state_size(&self) -> (n: usize)
        ensures
            n == self.spec_state_size(),
    {
        self.state_size
    }

    /// Returns a copy of the regular expression.
    pub fn regex(&self) -> (copy: regex::Regex)
        ensures
            copy == self.tokenizer(),
    {
        regex_clone(&self.regex)
    }
}

impl Clone for RawMarkovChain {
    /// A copy that holds the same table, vocabulary, state size and tokenizer.
    fn clone(&self) -> (copy: RawMarkovChain)
        ensures
            copy.entries() == self.entries(),
            copy.vocabulary() == self.vocabulary(),
            copy.spec_state_size() == self.spec_state_size(),
            copy.tokenizer() == self.tokenizer(),
    {
        RawMarkovChain {
            items: table_clone(&self.items),
            state_size: self.state_size,
            regex: regex_clone(&self.regex),
            cache: interner_clone(&self.cache),
        }
    }
}

} // verus!
