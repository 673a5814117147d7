use markov_str::{MarkovChain, RawMarkovChain, WORD_REGEX};
use rand::rngs::StdRng;
use rand::SeedableRng;
use regex::Regex;

fn chain_of(state_size: usize, text: &str) -> MarkovChain {
	let mut chain = MarkovChain::new(state_size, Regex::new(WORD_REGEX).unwrap());
	chain.add_text(text);
	chain
}

fn listed(chain: &MarkovChain) -> Vec<(Vec<usize>, Vec<usize>)> {
	let mut pairs = chain.buckets();
	pairs.sort();
	pairs
}

fn rebuilt(chain: &MarkovChain) -> Option<MarkovChain> {
	RawMarkovChain::from_parts(chain.state_size(), chain.regex(), &chain.words(), &chain.buckets())
}

fn word_regex() -> Regex {
	Regex::new(WORD_REGEX).unwrap()
}

#[test]
fn words_come_in_handle_order() {
	let chain = chain_of(1, "b a b c a");
	assert_eq!(chain.words(), vec!["b", "a", "c"]);
	let empty = MarkovChain::new(1, word_regex());
	assert_eq!(empty.words(), Vec::<&str>::new());
}

#[test]
fn buckets_list_the_whole_table() {
	let chain = chain_of(2, "the cat sat on the mat");
	assert_eq!(
		listed(&chain),
		vec![
			(vec![0], vec![4]),
			(vec![0, 1], vec![2]),
			(vec![1], vec![2]),
			(vec![1, 2], vec![3]),
			(vec![2], vec![3]),
			(vec![2, 3], vec![0]),
			(vec![3], vec![0]),
			(vec![3, 0], vec![4]),
		]
	);
	let empty = MarkovChain::new(2, word_regex());
	assert_eq!(empty.buckets(), vec![]);
}

#[test]
fn a_chain_can_be_put_together_from_its_parts() {
	let mut chain = chain_of(2, "a b a c a b a d b a c d a");
	chain.add_text_weighted("d d a b", 3);
	let copy = rebuilt(&chain).unwrap();
	assert_eq!(copy.len(), chain.len());
	assert_eq!(copy.cache_len(), chain.cache_len());
	assert_eq!(copy.state_size(), chain.state_size());
	assert_eq!(copy.regex().as_str(), chain.regex().as_str());
	assert_eq!(copy.words(), chain.words());
	assert_eq!(listed(&copy), listed(&chain));
}

#[test]
fn a_rebuilt_chain_follows_known_contexts_alike() {
	let chain = chain_of(2, "the cat sat on the mat");
	let copy = rebuilt(&chain).unwrap();
	for seed in 0..20u64 {
		let mut rng1 = StdRng::seed_from_u64(seed);
		let mut rng2 = StdRng::seed_from_u64(seed);
		let one = chain.generate_start("the cat", 4, &mut rng1);
		let other = copy.generate_start("the cat", 4, &mut rng2);
		assert_eq!(one, Some("sat on the mat".to_string()));
		assert_eq!(one, other);
	}
}

#[test]
fn a_rebuilt_chain_can_be_trained_on() {
	let chain = chain_of(1, "a b");
	let mut copy = rebuilt(&chain).unwrap();
	copy.add_text("a c b a");
	assert_eq!(copy.words(), vec!["a", "b", "c"]);
	assert_eq!(listed(&copy), vec![(vec![0], vec![1, 2]), (vec![1], vec![0]), (vec![2], vec![1])]);
}

#[test]
fn empty_parts_make_an_empty_chain() {
	let chain = RawMarkovChain::from_parts(3, word_regex(), &vec![], &vec![]).unwrap();
	assert_eq!(chain.len(), 0);
	assert_eq!(chain.cache_len(), 0);
	assert_eq!(chain.state_size(), 3);
}

#[test]
fn parts_that_do_not_fit_are_refused() {
	let words = vec!["a", "b", "c"];
	let fine = vec![(vec![0], vec![1, 1]), (vec![0, 1], vec![2])];
	assert!(RawMarkovChain::from_parts(2, word_regex(), &words, &fine).is_some());
	// a text stands twice
	assert!(RawMarkovChain::from_parts(2, word_regex(), &vec!["a", "b", "a"], &fine).is_none());
	// a context is longer than the state size
	assert!(RawMarkovChain::from_parts(1, word_regex(), &words, &fine).is_none());
	assert!(RawMarkovChain::from_parts(0, word_regex(), &words, &fine).is_none());
	// a context is empty
	let empty_context = vec![(vec![], vec![1])];
	assert!(RawMarkovChain::from_parts(2, word_regex(), &words, &empty_context).is_none());
	// a bucket is empty
	let empty_bucket = vec![(vec![0], vec![])];
	assert!(RawMarkovChain::from_parts(2, word_regex(), &words, &empty_bucket).is_none());
	// a handle is not that of a text
	let unknown_in_context = vec![(vec![3], vec![1])];
	assert!(RawMarkovChain::from_parts(2, word_regex(), &words, &unknown_in_context).is_none());
	let unknown_in_bucket = vec![(vec![0], vec![1, 3])];
	assert!(RawMarkovChain::from_parts(2, word_regex(), &words, &unknown_in_bucket).is_none());
	// a context stands twice
	let twice = vec![(vec![0], vec![1]), (vec![1], vec![2]), (vec![0], vec![2])];
	assert!(RawMarkovChain::from_parts(2, word_regex(), &words, &twice).is_none());
}
