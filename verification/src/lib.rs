//! A Markov chain over interned tokens, built for text generation.
//!
//! Training text is cut into tokens by a regular expression, every token is
//! interned to a small integer handle, and each window of the token stream
//! records which handle followed which context. Generation walks those
//! records, always preferring the longest context it has seen.
//!
//! The arithmetic of windows, contexts and buckets is verified; the hash
//! table, the interner, the regular expression engine and the random number
//! generator are outside crates that the library reaches through a handful
//! of wrappers with stated contracts.

pub mod bucket;
pub mod chain;
pub mod generate;
pub mod interner;
pub mod laws;
pub mod model;
pub mod random;
pub mod snapshot;
pub mod table;
pub mod tokenizer;
pub mod training;

pub use crate::bucket::ChainItem;
pub use crate::chain::{MarkovChain, RawMarkovChain};
pub use crate::generate::{join_words, MarkovChainIter};
pub use crate::tokenizer::{BARE_WORD_REGEX, WORD_REGEX};
