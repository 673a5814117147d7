use markov_str::{join_words, MarkovChain, WORD_REGEX};
use rand::rngs::StdRng;
use rand::SeedableRng;
use regex::Regex;

fn chain_of(state_size: usize, text: &str) -> MarkovChain {
	let mut chain = MarkovChain::new(state_size, Regex::new(WORD_REGEX).unwrap());
	chain.add_text(text);
	chain
}

#[test]
fn join_words_puts_single_spaces_between() {
	assert_eq!(join_words(&vec![]), "");
	assert_eq!(join_words(&vec!["x"]), "x");
	assert_eq!(join_words(&vec!["a", "b", "c"]), "a b c");
	assert_eq!(join_words(&vec!["", ""]), " ");
}

#[test]
fn empty_chain_has_no_state() {
	let chain = MarkovChain::new(2, Regex::new(WORD_REGEX).unwrap());
	let mut rng = StdRng::seed_from_u64(7);
	assert_eq!(chain.generate(0, &mut rng), None);
	assert_eq!(chain.generate(5, &mut rng), None);
	assert_eq!(chain.generate_start("a b", 5, &mut rng), None);
	assert_eq!(chain.next_step(&[], &mut rng), None);
	assert_eq!(chain.iter(5, &mut rng).next(), None);
	assert_eq!(chain.iter(5, &mut rng).next_handle(), None);
	assert_eq!(chain.iter(5, &mut rng).collect(), Vec::<&str>::new());
	assert_eq!(chain.iter_start("a", 5, &mut rng).collect(), Vec::<&str>::new());
}

#[test]
fn state_size_zero_has_no_state_whatever_the_text() {
	for text in ["", "a", "a b", "a b a c a b a d"] {
		let chain = chain_of(0, text);
		assert_eq!(chain.len(), 0);
		for seed in 0..10u64 {
			let mut rng = StdRng::seed_from_u64(seed);
			assert_eq!(chain.generate(3, &mut rng), None);
			assert_eq!(chain.generate_start("a", 3, &mut rng), None);
			assert_eq!(chain.next_step(&[], &mut rng), None);
			assert_eq!(chain.iter(3, &mut rng).next(), None);
		}
	}
}

#[test]
fn zero_length_text_is_empty_not_absent() {
	let chain = chain_of(1, "a b");
	let mut rng = StdRng::seed_from_u64(3);
	assert_eq!(chain.generate(0, &mut rng), Some(String::new()));
	assert_eq!(chain.generate_start("a", 0, &mut rng), Some(String::new()));
	assert_eq!(chain.iter(0, &mut rng).next(), None);
}

#[test]
fn start_phrase_leads_to_its_only_successor() {
	let chain = chain_of(2, "the cat sat on the mat");
	for seed in 0..100u64 {
		let mut rng = StdRng::seed_from_u64(seed);
		assert_eq!(chain.generate_start("on the", 1, &mut rng), Some("mat".to_string()));
	}
}

#[test]
fn generated_tokens_are_in_the_vocabulary() {
	let chain = chain_of(2, "the cat sat on the mat");
	for seed in 0..50u64 {
		let mut rng = StdRng::seed_from_u64(seed);
		let text = chain.generate(12, &mut rng).unwrap();
		let words: Vec<&str> = text.split(' ').collect();
		assert_eq!(words.len(), 12);
		for word in words {
			assert!(chain.lookup(word).is_some());
		}
	}
}

#[test]
fn backoff_uses_the_known_suffix_only() {
	let chain = chain_of(2, "x a y z");
	let (x, a, y, z) = (0, 1, 2, 3);
	assert_eq!(chain.bucket(&[x, y]).map(|b| b.items().clone()), None);
	assert_eq!(chain.bucket(&[y]).map(|b| b.items().clone()), Some(vec![z]));
	for seed in 0..200u64 {
		let mut rng = StdRng::seed_from_u64(seed);
		assert_eq!(chain.next_step(&[x, y], &mut rng), Some(z));
	}
	let _ = a;
}

#[test]
fn backoff_prefers_the_longest_suffix() {
	let chain = chain_of(2, "a b c d b e");
	let (a, b, c, e) = (0, 1, 2, 4);
	for seed in 0..200u64 {
		let mut rng = StdRng::seed_from_u64(seed);
		assert_eq!(chain.next_step(&[a, b], &mut rng), Some(c));
		let after_b = chain.next_step(&[b], &mut rng).unwrap();
		assert!(after_b == c || after_b == e);
	}
}

#[test]
fn unknown_context_falls_back_to_the_whole_table() {
	let chain = chain_of(1, "a b c");
	let (b, c) = (1, 2);
	let mut seen = [false; 2];
	for seed in 0..100u64 {
		let mut rng = StdRng::seed_from_u64(seed);
		match chain.next_step(&[c], &mut rng) {
			Some(next) if next == b => seen[0] = true,
			Some(next) if next == c => seen[1] = true,
			other => panic!("drew {:?}", other),
		}
	}
	assert!(seen[0] && seen[1]);
}

#[test]
fn start_window_keeps_the_last_known_handles() {
	let chain = chain_of(2, "the cat sat on the mat");
	let (the, cat, sat, on) = (0, 1, 2, 3);
	assert_eq!(chain.window_of(""), Vec::<usize>::new());
	assert_eq!(chain.window_of("on the"), vec![on, the]);
	assert_eq!(chain.window_of("the cat sat"), vec![cat, sat]);
	assert_eq!(chain.window_of("dog the"), vec![the]);
	assert_eq!(chain.window_of("the cat dog"), vec![the, cat]);
	assert_eq!(chain.window_of("dog bird"), Vec::<usize>::new());
	let narrow = chain_of(1, "the cat sat on the mat");
	assert_eq!(narrow.window_of("on the"), vec![the]);
	let none = chain_of(0, "the cat");
	assert_eq!(none.window_of("the cat"), Vec::<usize>::new());
}

#[test]
fn unknown_start_phrase_is_like_no_start_phrase() {
	let chain = chain_of(2, "the cat sat on the mat");
	for seed in 0..20u64 {
		let mut rng1 = StdRng::seed_from_u64(seed);
		let mut rng2 = StdRng::seed_from_u64(seed);
		assert_eq!(
			chain.generate_start("zebra giraffe", 8, &mut rng1),
			chain.generate(8, &mut rng2)
		);
	}
}

#[test]
fn steps_one_at_a_time_equal_the_batch() {
	let chain = chain_of(2, "a b a c a b a d b a c d a");
	for seed in 0..20u64 {
		for length in [0usize, 1, 2, 7, 30] {
			let mut rng1 = StdRng::seed_from_u64(seed);
			let mut rng2 = StdRng::seed_from_u64(seed);
			let mut rng3 = StdRng::seed_from_u64(seed);
			let batch = chain.generate(length, &mut rng1).unwrap();
			let mut walk = chain.iter(length, &mut rng2);
			let mut words: Vec<&str> = Vec::new();
			while let Some(word) = walk.next() {
				words.push(word);
			}
			assert_eq!(walk.next(), None);
			assert_eq!(words.len(), length);
			assert_eq!(words.join(" "), batch);
			let mut by_handle = chain.iter(length, &mut rng3);
			let mut resolved: Vec<&str> = Vec::new();
			while let Some(next) = by_handle.next_handle() {
				resolved.push(chain.resolve(next));
			}
			assert_eq!(resolved, words);
		}
	}
}

#[test]
fn every_step_follows_its_window() {
	let chain = chain_of(2, "a b c a b d a b c");
	let (a, b, c, d) = (0, 1, 2, 3);
	for seed in 0..50u64 {
		let mut rng = StdRng::seed_from_u64(seed);
		let mut walk = chain.iter_start("a b", 1, &mut rng);
		let next = walk.next_handle().unwrap();
		assert!(next == c || next == d);
		assert_eq!(walk.next_handle(), None);
		let mut rng = StdRng::seed_from_u64(seed);
		let text = chain.generate_start("b c", 2, &mut rng).unwrap();
		assert_eq!(text, "a b");
	}
	let _ = (a, b);
}

#[test]
fn copies_generate_alike() {
	let chain = chain_of(2, "a b a c a b a d b a c d a");
	let copy = chain.clone();
	for seed in 0..20u64 {
		let mut rng1 = StdRng::seed_from_u64(seed);
		let mut rng2 = StdRng::seed_from_u64(seed);
		assert_eq!(chain.generate(15, &mut rng1), copy.generate(15, &mut rng2));
		assert_eq!(
			chain.generate_start("a b", 15, &mut rng1),
			copy.generate_start("a b", 15, &mut rng2)
		);
	}
}

#[test]
fn a_walk_with_no_steps_draws_nothing() {
	let chain = chain_of(2, "a b a c a b a d b a c d a");
	let mut rng = StdRng::seed_from_u64(11);
	let before = rng.clone();
	{
		let mut walk = chain.iter(0, &mut rng);
		assert_eq!(walk.next(), None);
		assert_eq!(walk.next(), None);
		assert_eq!(walk.next_handle(), None);
	}
	assert_eq!(rng, before);
	{
		let mut walk = chain.iter_start("a b", 0, &mut rng);
		assert_eq!(walk.next(), None);
		assert_eq!(walk.next_handle(), None);
	}
	assert_eq!(rng, before);
	{
		let mut walk = chain.iter(1, &mut rng);
		assert!(walk.next().is_some());
	}
	let after_one = rng.clone();
	assert_ne!(after_one, before);
	{
		let mut walk = chain.iter(1, &mut rng);
		assert!(walk.next().is_some());
		let spent = walk.next();
		assert_eq!(spent, None);
	}
	assert_ne!(rng, after_one);
}

#[test]
fn starting_a_walk_draws_nothing() {
	let chain = chain_of(2, "a b a c a b a d b a c d a");
	let mut rng = StdRng::seed_from_u64(5);
	let before = rng.clone();
	{
		let _walk = chain.iter(10, &mut rng);
	}
	assert_eq!(rng, before);
	{
		let _walk = chain.iter_start("a b zebra", 10, &mut rng);
	}
	assert_eq!(rng, before);
	assert_eq!(chain.iter(10, &mut rng).collect().len(), 10);
	assert_ne!(rng, before);
}

#[test]
fn no_state_draws_nothing() {
	let empty = MarkovChain::new(2, Regex::new(WORD_REGEX).unwrap());
	let mut rng = StdRng::seed_from_u64(9);
	let before = rng.clone();
	assert_eq!(empty.generate(5, &mut rng), None);
	assert_eq!(empty.generate_start("a b", 5, &mut rng), None);
	assert_eq!(empty.next_step(&[], &mut rng), None);
	assert_eq!(empty.iter(5, &mut rng).next(), None);
	assert_eq!(empty.iter(5, &mut rng).next_handle(), None);
	assert_eq!(empty.iter_start("a", 5, &mut rng).collect(), Vec::<&str>::new());
	assert_eq!(rng, before);
}

#[test]
fn a_text_of_length_zero_draws_nothing() {
	let chain = chain_of(2, "a b a c a b a d b a c d a");
	let mut rng = StdRng::seed_from_u64(21);
	let before = rng.clone();
	assert_eq!(chain.generate(0, &mut rng), Some(String::new()));
	assert_eq!(chain.generate_start("a b", 0, &mut rng), Some(String::new()));
	assert_eq!(chain.iter(0, &mut rng).collect(), Vec::<&str>::new());
	assert_eq!(rng, before);
	assert!(chain.generate(1, &mut rng).is_some());
	assert_ne!(rng, before);
}

#[test]
fn collect_takes_the_steps_that_are_left() {
	let chain = chain_of(2, "a b a c a b a d b a c d a");
	let mut rng1 = StdRng::seed_from_u64(4);
	let mut rng2 = StdRng::seed_from_u64(4);
	let all = chain.iter(6, &mut rng1).collect();
	let mut walk = chain.iter(6, &mut rng2);
	let first = walk.next().unwrap();
	let second = walk.next().unwrap();
	let rest = walk.collect();
	assert_eq!(rest.len(), 4);
	assert_eq!(walk.next(), None);
	assert_eq!(walk.collect(), Vec::<&str>::new());
	let mut joined = vec![first, second];
	joined.extend(rest);
	assert_eq!(joined, all);
}
