//! What holds of training and generation as a whole.

use crate::bucket::repeated;
use crate::chain::RawMarkovChain;
use crate::interner::MAX_HANDLES;
use crate::model::{
    handles_of, has_room, intern_all, intern_while_room, interned_repeatedly,
    lemma_full_vocabulary_stays, lemma_room_for_all, taught, taught_repeatedly,
};
use crate::model::{
    all_known, backoff, bucket_of, hit, is_walk, joined, known_context,
    lemma_narrow_window_no_sightings, lemma_no_room_no_entries, lemma_no_weight_no_sightings,
    lemma_nothing_sighted_nothing_trained, lemma_window_advances, lists, may_follow, no_entries,
    pair_fits, parts_fit, says, sightings, slide, suffix_from, trained, trained_repeatedly,
    window_at, window_len, words_of, yields,
};
use vstd::multiset::group_multiset_axioms;
use vstd::prelude::*;
use vstd::seq_lib::lemma_multiset_commutative;

verus! {

/// `rounds` copies of `part`, one after the other.
pub open spec fn in_rounds(part: Seq<usize>, rounds: nat) -> Seq<usize>
    decreases rounds,
{
    if rounds == 0 {
        Seq::empty()
    } else {
        in_rounds(part, (rounds - 1) as nat) + part
    }
}

/// How often `handle` stands in `bucket`.
pub open spec fn count_in(bucket: Seq<usize>, handle: usize) -> nat {
    bucket.to_multiset().count(handle)
}

/// Whether `windows` and `picks` record a walk taken step by step: every
/// pick may follow the window before it, and the window after it is that
/// window slid by the pick.
pub open spec fn stepwise(
    entries: Map<Seq<usize>, Seq<usize>>,
    state_size: nat,
    windows: Seq<Seq<usize>>,
    picks: Seq<usize>,
) -> bool {
    &&& windows.len() == picks.len() + 1
    &&& forall|step: int|
        0 <= step < picks.len() ==> {
            &&& may_follow(entries, windows[step], #[trigger] picks[step])
            &&& windows[step + 1] == slide(windows[step], picks[step], state_size)
        }
}

proof fn lemma_count_concat(front: Seq<usize>, back: Seq<usize>, handle: usize)
    ensures
        count_in(front + back, handle) == count_in(front, handle) + count_in(back, handle),
{
    broadcast use group_multiset_axioms;

    lemma_multiset_commutative(front, back);
}

proof fn lemma_count_empty(handle: usize)
    ensures
        count_in(Seq::<usize>::empty(), handle) == 0,
{
    let nothing = Seq::<usize>::empty();
    nothing.to_multiset_ensures();
    assert(!nothing.contains(handle));
}

proof fn lemma_count_repeated(copied: usize, count: nat, handle: usize)
    ensures
        count_in(repeated(copied, count), handle) == if handle == copied {
            count
        } else {
            0
        },
    decreases count,
{
    broadcast use group_multiset_axioms;

    if count == 0 {
        assert(repeated(copied, count) =~= Seq::<usize>::empty());
        lemma_count_empty(handle);
    } else {
        let shorter = repeated(copied, (count - 1) as nat);
        lemma_count_repeated(copied, (count - 1) as nat, handle);
        assert(repeated(copied, count) =~= shorter.push(copied));
        shorter.to_multiset_ensures();
        assert(shorter.push(copied).to_multiset() =~= shorter.to_multiset().insert(copied));
    }
}

proof fn lemma_count_hit(
    tokens: Seq<usize>,
    width: nat,
    weight: nat,
    context: Seq<usize>,
    at: int,
    handle: usize,
)
    ensures
        count_in(hit(tokens, width, weight, context, at), handle) == weight * count_in(
            hit(tokens, width, 1, context, at),
            handle,
        ),
        hit(tokens, width, weight, context, at).len() == weight * hit(
            tokens,
            width,
            1,
            context,
            at,
        ).len(),
{
    if hit(tokens, width, 1, context, at).len() > 0 {
        lemma_count_repeated(tokens[at], weight, handle);
        lemma_count_repeated(tokens[at], 1, handle);
        assert(weight * 1 == weight);
        assert(weight * 0 == 0);
    } else {
        lemma_count_empty(handle);
        assert(weight * 0 == 0);
    }
}

proof fn lemma_count_sightings(
    tokens: Seq<usize>,
    width: nat,
    weight: nat,
    context: Seq<usize>,
    upto: int,
    handle: usize,
)
    ensures
        count_in(sightings(tokens, width, weight, context, upto), handle) == weight * count_in(
            sightings(tokens, width, 1, context, upto),
            handle,
        ),
        sightings(tokens, width, weight, context, upto).len() == weight * sightings(
            tokens,
            width,
            1,
            context,
            upto,
        ).len(),
    decreases upto,
{
    if upto <= 0 || upto < width {
        lemma_count_empty(handle);
        assert(weight * 0 == 0);
    } else {
        let before_w = sightings(tokens, width, weight, context, upto - 1);
        let before_1 = sightings(tokens, width, 1, context, upto - 1);
        let here_w = hit(tokens, width, weight, context, upto - 1);
        let here_1 = hit(tokens, width, 1, context, upto - 1);
        lemma_count_sightings(tokens, width, weight, context, upto - 1, handle);
        lemma_count_hit(tokens, width, weight, context, upto - 1, handle);
        lemma_count_concat(before_w, here_w, handle);
        lemma_count_concat(before_1, here_1, handle);
        let a = count_in(before_1, handle);
        let b = count_in(here_1, handle);
        assert(weight * (a + b) == weight * a + weight * b) by (nonlinear_arith);
        let la = before_1.len();
        let lb = here_1.len();
        assert(weight * (la + lb) == weight * la + weight * lb) by (nonlinear_arith);
    }
}

proof fn lemma_count_rounds(part: Seq<usize>, rounds: nat, handle: usize)
    ensures
        count_in(in_rounds(part, rounds), handle) == rounds * count_in(part, handle),
    decreases rounds,
{
    if rounds == 0 {
        lemma_count_empty(handle);
        assert(0 * count_in(part, handle) == 0);
    } else {
        lemma_count_rounds(part, (rounds - 1) as nat, handle);
        lemma_count_concat(in_rounds(part, (rounds - 1) as nat), part, handle);
        let c = count_in(part, handle);
        assert((rounds - 1) * c + c == rounds * c) by (nonlinear_arith);
    }
}

proof fn lemma_rounds_bucket(
    entries: Map<Seq<usize>, Seq<usize>>,
    tokens: Seq<usize>,
    state_size: nat,
    rounds: nat,
    context: Seq<usize>,
)
    ensures
        ({
            let seen = sightings(
                tokens,
                window_len(tokens.len(), state_size),
                1,
                context,
                tokens.len() as int,
            );
            let after = trained_repeatedly(entries, tokens, state_size, rounds);
            &&& after.contains_key(context) == (entries.contains_key(context) || (rounds > 0
                && seen.len() > 0))
            &&& bucket_of(after, context) == bucket_of(entries, context) + in_rounds(seen, rounds)
        }),
    decreases rounds,
{
    let seen = sightings(
        tokens,
        window_len(tokens.len(), state_size),
        1,
        context,
        tokens.len() as int,
    );
    if rounds == 0 {
        assert(bucket_of(entries, context) + in_rounds(seen, 0) =~= bucket_of(entries, context));
    } else {
        let earlier = trained_repeatedly(entries, tokens, state_size, (rounds - 1) as nat);
        let after = trained(earlier, tokens, state_size, 1);
        lemma_rounds_bucket(entries, tokens, state_size, (rounds - 1) as nat, context);
        assert(after == trained_repeatedly(entries, tokens, state_size, rounds));
        assert(after.contains_key(context) == (earlier.contains_key(context) || seen.len() > 0));
        if after.contains_key(context) {
            assert(after[context] == bucket_of(earlier, context) + seen);
        } else {
            assert(seen.len() == 0);
            assert(bucket_of(earlier, context) + seen =~= bucket_of(earlier, context));
        }
        assert(bucket_of(after, context) =~= bucket_of(entries, context) + in_rounds(
            seen,
            rounds,
        ));
    }
}

proof fn lemma_backoff_skips_unknown(
    entries: Map<Seq<usize>, Seq<usize>>,
    prior: Seq<usize>,
    start: int,
    at: int,
)
    requires
        0 <= at <= start < prior.len(),
        entries.contains_key(suffix_from(prior, start)),
        forall|longer: int| 0 <= longer < start ==> !entries.contains_key(suffix_from(prior, longer)),
    ensures
        backoff(entries, prior, at) == Some(suffix_from(prior, start)),
    decreases start - at,
{
    if at < start {
        assert(!entries.contains_key(suffix_from(prior, at)));
        lemma_backoff_skips_unknown(entries, prior, start, at + 1);
    }
}

proof fn lemma_stepwise_windows(
    entries: Map<Seq<usize>, Seq<usize>>,
    state_size: nat,
    windows: Seq<Seq<usize>>,
    picks: Seq<usize>,
    step: int,
)
    requires
        stepwise(entries, state_size, windows, picks),
        windows[0].len() <= state_size,
        0 <= step <= picks.len(),
    ensures
        windows[step] == window_at(windows[0], picks, state_size, step),
    decreases step,
{
    if step == 0 {
        assert(windows[0] + picks.take(0) =~= windows[0]);
    } else {
        lemma_stepwise_windows(entries, state_size, windows, picks, step - 1);
        lemma_window_advances(windows[0], picks, state_size, step - 1);
        assert(may_follow(entries, windows[step - 1], picks[step - 1]));
    }
}

/// A chain with state size zero has an empty table: there is no context
/// of length one to zero. Generation from it therefore always reports that
/// there is no state.
pub proof fn law_zero_state_size_means_empty(chain: RawMarkovChain)
    requires
        chain.wf(),
        chain.spec_state_size() == 0,
    ensures
        chain.entries() == no_entries(),
        chain.spec_len() == 0,
{
    lemma_no_room_no_entries(chain.entries(), chain.vocabulary());
}

/// Training with state size zero records nothing, whatever the tokens and the weight.
pub proof fn law_zero_state_size_trains_nothing(
    entries: Map<Seq<usize>, Seq<usize>>,
    tokens: Seq<usize>,
    weight: nat,
)
    ensures
        trained(entries, tokens, 0, weight) == entries,
{
    let width = window_len(tokens.len(), 0);
    assert forall|c: Seq<usize>|
        sightings(tokens, width, weight, c, tokens.len() as int) == Seq::<usize>::empty() by {
        lemma_narrow_window_no_sightings(tokens, width, weight, c, tokens.len() as int);
    }
    lemma_nothing_sighted_nothing_trained(entries, tokens, 0, weight);
}

/// Training on no token at all, or on a single token, records nothing:
/// a lone token has no context before it.
pub proof fn law_short_text_trains_nothing(
    entries: Map<Seq<usize>, Seq<usize>>,
    tokens: Seq<usize>,
    state_size: nat,
    weight: nat,
)
    requires
        tokens.len() <= 1,
    ensures
        trained(entries, tokens, state_size, weight) == entries,
{
    let width = window_len(tokens.len(), state_size);
    assert forall|c: Seq<usize>|
        sightings(tokens, width, weight, c, tokens.len() as int) == Seq::<usize>::empty() by {
        lemma_narrow_window_no_sightings(tokens, width, weight, c, tokens.len() as int);
    }
    lemma_nothing_sighted_nothing_trained(entries, tokens, state_size, weight);
}

/// Training with weight zero leaves the table unchanged.
pub proof fn law_zero_weight_trains_nothing(
    entries: Map<Seq<usize>, Seq<usize>>,
    tokens: Seq<usize>,
    state_size: nat,
)
    ensures
        trained(entries, tokens, state_size, 0) == entries,
{
    let width = window_len(tokens.len(), state_size);
    assert forall|c: Seq<usize>|
        sightings(tokens, width, 0, c, tokens.len() as int) == Seq::<usize>::empty() by {
        lemma_no_weight_no_sightings(tokens, width, c, tokens.len() as int);
    }
    lemma_nothing_sighted_nothing_trained(entries, tokens, state_size, 0);
}

/// Training once with weight `weight` and training `weight` times with
/// weight one give tables with the same contexts, and every bucket holds
/// every handle equally often in both, so that drawing from either is
/// drawing from the same distribution.
pub proof fn law_weight_counts_like_repeats(
    entries: Map<Seq<usize>, Seq<usize>>,
    tokens: Seq<usize>,
    state_size: nat,
    weight: nat,
)
    ensures
        trained(entries, tokens, state_size, weight).dom() == trained_repeatedly(
            entries,
            tokens,
            state_size,
            weight,
        ).dom(),
        forall|context: Seq<usize>| #[trigger]
            trained(entries, tokens, state_size, weight).contains_key(context) ==> trained(
                entries,
                tokens,
                state_size,
                weight,
            )[context].to_multiset() == trained_repeatedly(
                entries,
                tokens,
                state_size,
                weight,
            )[context].to_multiset(),
{
    broadcast use group_multiset_axioms;

    let width = window_len(tokens.len(), state_size);
    let n = tokens.len() as int;
    let weighted = trained(entries, tokens, state_size, weight);
    let rounds = trained_repeatedly(entries, tokens, state_size, weight);
    assert forall|c: Seq<usize>| weighted.contains_key(c) == rounds.contains_key(c) by {
        lemma_rounds_bucket(entries, tokens, state_size, weight, c);
        lemma_count_sightings(tokens, width, weight, c, n, 0);
        let one = sightings(tokens, width, 1, c, n).len();
        if weight > 0 {
            assert(one > 0 ==> weight * one > 0) by (nonlinear_arith)
                requires
                    weight > 0,
            ;
            assert(one == 0 ==> weight * one == 0) by (nonlinear_arith);
        } else {
            assert(weight * one == 0) by (nonlinear_arith)
                requires
                    weight == 0,
            ;
        }
    }
    assert(weighted.dom() =~= rounds.dom());
    assert forall|c: Seq<usize>| #[trigger] weighted.contains_key(c) implies weighted[c].to_multiset()
        == rounds[c].to_multiset() by {
        lemma_rounds_bucket(entries, tokens, state_size, weight, c);
        assert(rounds.contains_key(c));
        let kept = bucket_of(entries, c);
        let seen_w = sightings(tokens, width, weight, c, n);
        let seen_1 = sightings(tokens, width, 1, c, n);
        assert(weighted[c] == kept + seen_w);
        assert(rounds[c] == kept + in_rounds(seen_1, weight));
        assert forall|h: usize| weighted[c].to_multiset().count(h) == rounds[c].to_multiset().count(
            h,
        ) by {
            lemma_count_concat(kept, seen_w, h);
            lemma_count_concat(kept, in_rounds(seen_1, weight), h);
            lemma_count_sightings(tokens, width, weight, c, n, h);
            lemma_count_rounds(seen_1, weight, h);
        }
        assert(weighted[c].to_multiset() =~= rounds[c].to_multiset());
    }
}

/// Backoff goes by the longest suffix that is known: where every longer
/// suffix of `prior` is absent from the table and the one from `start` is
/// present, the next handle is drawn from that suffix's bucket and from
/// nowhere else, whatever the random number generator does.
pub proof fn law_backoff_prefers_longest_known_suffix(
    entries: Map<Seq<usize>, Seq<usize>>,
    prior: Seq<usize>,
    start: int,
)
    requires
        0 <= start < prior.len(),
        entries.contains_key(suffix_from(prior, start)),
        forall|longer: int| 0 <= longer < start ==> !entries.contains_key(suffix_from(prior, longer)),
    ensures
        known_context(entries, prior) == Some(suffix_from(prior, start)),
        forall|next: usize|
            may_follow(entries, prior, next) <==> entries[suffix_from(prior, start)].contains(next),
{
    lemma_backoff_skips_unknown(entries, prior, start, 0);
}

/// A walk taken one step at a time is a walk that the batch form can take
/// from the same window, and joining what the steps yield gives a text that
/// the batch form can say. So the lazy sequence, joined with spaces, and the
/// batch form agree whenever they draw the same handles.
pub proof fn law_lazy_steps_are_a_batch_walk(
    entries: Map<Seq<usize>, Seq<usize>>,
    vocabulary: Seq<Seq<char>>,
    state_size: nat,
    windows: Seq<Seq<usize>>,
    picks: Seq<usize>,
)
    requires
        stepwise(entries, state_size, windows, picks),
        windows[0].len() <= state_size,
        all_known(picks, vocabulary.len()),
    ensures
        forall|step: int|
            0 <= step <= picks.len() ==> #[trigger] windows[step] == window_at(
                windows[0],
                picks,
                state_size,
                step,
            ),
        is_walk(entries, state_size, windows[0], picks),
        yields(
            entries,
            vocabulary,
            state_size,
            windows[0],
            picks.len(),
            words_of(vocabulary, picks),
        ),
        says(
            entries,
            vocabulary,
            state_size,
            windows[0],
            picks.len(),
            joined(words_of(vocabulary, picks)),
        ),
{
    let start = windows[0];
    assert forall|step: int| 0 <= step <= picks.len() implies #[trigger] windows[step]
        == window_at(start, picks, state_size, step) by {
        lemma_stepwise_windows(entries, state_size, windows, picks, step);
    }
    assert forall|step: int| 0 <= step < picks.len() implies may_follow(
        entries,
        window_at(start, picks, state_size, step),
        #[trigger] picks[step],
    ) by {
        assert(windows[step] == window_at(start, picks, state_size, step));
        assert(may_follow(entries, windows[step], picks[step]));
    }
    assert(is_walk(entries, state_size, start, picks));
    assert(yields(
        entries,
        vocabulary,
        state_size,
        start,
        picks.len(),
        words_of(vocabulary, picks),
    ));
}

/// Every walk that the batch form can take can be taken one step at a
/// time: its windows slide from one step to the next.
pub proof fn law_batch_walk_has_lazy_steps(
    entries: Map<Seq<usize>, Seq<usize>>,
    state_size: nat,
    start: Seq<usize>,
    picks: Seq<usize>,
)
    requires
        is_walk(entries, state_size, start, picks),
        start.len() <= state_size,
    ensures
        stepwise(
            entries,
            state_size,
            Seq::new(picks.len() + 1, |step: int| window_at(start, picks, state_size, step)),
            picks,
        ),
        window_at(start, picks, state_size, 0) == start,
{
    let windows = Seq::new(picks.len() + 1, |step: int| window_at(start, picks, state_size, step));
    assert(start + picks.take(0) =~= start);
    assert forall|step: int| 0 <= step < picks.len() implies {
        &&& may_follow(entries, windows[step], #[trigger] picks[step])
        &&& windows[step + 1] == slide(windows[step], picks[step], state_size)
    } by {
        lemma_window_advances(start, picks, state_size, step);
    }
}

/// Chains that hold the same table, vocabulary and state size can say the
/// same texts from the same window: what generation says depends on
/// nothing else in the chain. A copy of a chain, and a chain trained alike,
/// are such chains.
pub proof fn law_alike_chains_say_alike(
    one: RawMarkovChain,
    other: RawMarkovChain,
    start: Seq<usize>,
    length: nat,
    text: Seq<char>,
)
    requires
        one.entries() == other.entries(),
        one.vocabulary() == other.vocabulary(),
        one.spec_state_size() == other.spec_state_size(),
    ensures
        says(
            one.entries(),
            one.vocabulary(),
            one.spec_state_size() as nat,
            start,
            length,
            text,
        ) == says(
            other.entries(),
            other.vocabulary(),
            other.spec_state_size() as nat,
            start,
            length,
            text,
        ),
{
}

/// Training is a function of what the chain held and of the tokens: two
/// chains that were alike and took in the same tokens with the same weight
/// are alike afterwards.
pub proof fn law_alike_chains_train_alike(
    one_before: RawMarkovChain,
    one_after: RawMarkovChain,
    other_before: RawMarkovChain,
    other_after: RawMarkovChain,
    texts: Seq<Seq<char>>,
    weight: nat,
)
    requires
        one_before.entries() == other_before.entries(),
        one_before.vocabulary() == other_before.vocabulary(),
        one_before.spec_state_size() == other_before.spec_state_size(),
        one_after.learned(one_before, texts, weight),
        other_after.learned(other_before, texts, weight),
    ensures
        one_after.entries() == other_after.entries(),
        one_after.vocabulary() == other_after.vocabulary(),
{
}

/// What lists a table determines it: two tables with the same listing are
/// the same table.
pub proof fn law_listing_determines_table(
    pairs: Seq<(Seq<usize>, Seq<usize>)>,
    one: Map<Seq<usize>, Seq<usize>>,
    other: Map<Seq<usize>, Seq<usize>>,
)
    requires
        lists(pairs, one),
        lists(pairs, other),
    ensures
        one == other,
{
    assert forall|c: Seq<usize>| one.contains_key(c) == other.contains_key(c) by {
        if one.contains_key(c) {
            let i = choose|i: int| 0 <= i < pairs.len() && (#[trigger] pairs[i]).0 == c;
            assert(other.contains_key(pairs[i].0));
        }
        if other.contains_key(c) {
            let i = choose|i: int| 0 <= i < pairs.len() && (#[trigger] pairs[i]).0 == c;
            assert(one.contains_key(pairs[i].0));
        }
    }
    assert forall|c: Seq<usize>| one.contains_key(c) implies #[trigger] one[c] == other[c] by {
        let i = choose|i: int| 0 <= i < pairs.len() && (#[trigger] pairs[i]).0 == c;
        assert(one[pairs[i].0] == pairs[i].1);
        assert(other[pairs[i].0] == pairs[i].1);
    }
    assert(one =~= other);
}

/// The parts of a chain fit together: from the vocabulary of a well-formed
/// chain and any listing of its table a chain can be put together again,
/// and by the law above it holds the same table.
pub proof fn law_parts_of_a_chain_fit(chain: RawMarkovChain, pairs: Seq<(Seq<usize>, Seq<usize>)>)
    requires
        chain.wf(),
        lists(pairs, chain.entries()),
    ensures
        parts_fit(chain.spec_state_size() as nat, chain.vocabulary(), pairs),
{
    assert forall|i: int| 0 <= i < pairs.len() implies pair_fits(
        #[trigger] pairs[i],
        chain.vocabulary().len(),
        chain.spec_state_size() as nat,
    ) by {
        assert(chain.entries().contains_key(pairs[i].0));
    }
}

proof fn lemma_interning_keeps_what_is_held(vocabulary: Seq<Seq<char>>, texts: Seq<Seq<char>>)
    ensures
        intern_all(vocabulary, texts).len() >= vocabulary.len(),
        forall|j: int|
            0 <= j < vocabulary.len() ==> #[trigger] intern_all(vocabulary, texts)[j]
                == vocabulary[j],
    decreases texts.len(),
{
    if texts.len() > 0 {
        lemma_interning_keeps_what_is_held(vocabulary, texts.drop_last());
    }
}

proof fn lemma_interned_texts_are_held(vocabulary: Seq<Seq<char>>, texts: Seq<Seq<char>>, i: int)
    requires
        0 <= i < texts.len(),
    ensures
        intern_all(vocabulary, texts).contains(texts[i]),
    decreases texts.len(),
{
    let before = intern_all(vocabulary, texts.drop_last());
    let after = intern_all(vocabulary, texts);
    if i == texts.len() - 1 {
        if before.contains(texts.last()) {
        } else {
            assert(after[before.len() as int] == texts.last());
        }
    } else {
        lemma_interned_texts_are_held(vocabulary, texts.drop_last(), i);
        let j = choose|j: int| 0 <= j < before.len() && before[j] == texts.drop_last()[i];
        assert(after[j] == texts[i]);
    }
}

proof fn lemma_held_texts_add_nothing(vocabulary: Seq<Seq<char>>, texts: Seq<Seq<char>>)
    requires
        forall|i: int| 0 <= i < texts.len() ==> vocabulary.contains(#[trigger] texts[i]),
    ensures
        intern_all(vocabulary, texts) == vocabulary,
    decreases texts.len(),
{
    if texts.len() > 0 {
        assert forall|i: int| 0 <= i < texts.drop_last().len() implies vocabulary.contains(
            #[trigger] texts.drop_last()[i],
        ) by {
            assert(texts.drop_last()[i] == texts[i]);
        }
        lemma_held_texts_add_nothing(vocabulary, texts.drop_last());
        assert(vocabulary.contains(texts[texts.len() - 1]));
    }
}

proof fn lemma_new_text_needs_a_handle(vocabulary: Seq<Seq<char>>, texts: Seq<Seq<char>>, i: int)
    requires
        0 <= i < texts.len(),
        !vocabulary.contains(texts[i]),
    ensures
        intern_all(vocabulary, texts).len() > vocabulary.len(),
{
    lemma_interning_keeps_what_is_held(vocabulary, texts);
    lemma_interned_texts_are_held(vocabulary, texts, i);
    let after = intern_all(vocabulary, texts);
    if after.len() == vocabulary.len() {
        assert(after =~= vocabulary);
    }
}

proof fn lemma_room_is_never_exceeded(vocabulary: Seq<Seq<char>>, texts: Seq<Seq<char>>)
    requires
        vocabulary.len() <= MAX_HANDLES,
    ensures
        intern_while_room(vocabulary, texts).len() <= MAX_HANDLES,
    decreases texts.len(),
{
    if texts.len() > 0 {
        lemma_room_is_never_exceeded(vocabulary, texts.drop_last());
    }
}

proof fn lemma_without_room_the_vocabulary_is_full(
    vocabulary: Seq<Seq<char>>,
    texts: Seq<Seq<char>>,
) -> (left_out: int)
    requires
        vocabulary.len() <= MAX_HANDLES,
        !has_room(vocabulary, texts),
    ensures
        intern_while_room(vocabulary, texts).len() == MAX_HANDLES,
        0 <= left_out < texts.len(),
        !intern_while_room(vocabulary, texts).contains(texts[left_out]),
    decreases texts.len(),
{
    let shorter = texts.drop_last();
    if texts.len() == 0 {
        0
    } else if has_room(vocabulary, shorter) {
        lemma_room_for_all(vocabulary, shorter);
        texts.len() - 1
    } else {
        let left_out = lemma_without_room_the_vocabulary_is_full(vocabulary, shorter);
        assert(shorter[left_out] == texts[left_out]);
        left_out
    }
}

proof fn lemma_rounds_of_text(
    entries: Map<Seq<usize>, Seq<usize>>,
    vocabulary: Seq<Seq<char>>,
    texts: Seq<Seq<char>>,
    state_size: nat,
    rounds: nat,
)
    requires
        vocabulary.len() <= MAX_HANDLES,
        rounds >= 1,
    ensures
        interned_repeatedly(vocabulary, texts, rounds) == intern_while_room(vocabulary, texts),
        has_room(vocabulary, texts) ==> taught_repeatedly(
            entries,
            vocabulary,
            texts,
            state_size,
            rounds,
        ) == trained_repeatedly(
            entries,
            handles_of(intern_all(vocabulary, texts), texts),
            state_size,
            rounds,
        ),
        !has_room(vocabulary, texts) ==> taught_repeatedly(
            entries,
            vocabulary,
            texts,
            state_size,
            rounds,
        ) == entries,
    decreases rounds,
{
    let held = intern_while_room(vocabulary, texts);
    if rounds == 1 {
        assert(interned_repeatedly(vocabulary, texts, 0) == vocabulary);
        assert(taught_repeatedly(entries, vocabulary, texts, state_size, 0) == entries);
        let handles = handles_of(intern_all(vocabulary, texts), texts);
        assert(trained_repeatedly(entries, handles, state_size, 0) == entries);
    } else {
        lemma_rounds_of_text(entries, vocabulary, texts, state_size, (rounds - 1) as nat);
        if has_room(vocabulary, texts) {
            lemma_room_for_all(vocabulary, texts);
            assert forall|i: int| 0 <= i < texts.len() implies held.contains(
                #[trigger] texts[i],
            ) by {
                lemma_interned_texts_are_held(vocabulary, texts, i);
            }
            lemma_held_texts_add_nothing(held, texts);
            lemma_room_for_all(held, texts);
        } else {
            let left_out = lemma_without_room_the_vocabulary_is_full(vocabulary, texts);
            lemma_new_text_needs_a_handle(held, texts, left_out);
            assert(texts.take(0) =~= Seq::<Seq<char>>::empty());
            lemma_full_vocabulary_stays(held, texts, 0);
        }
    }
}

/// Training once on a text with weight `weight` and training `weight`
/// times on it with weight one leave the same vocabulary and tables with
/// the same contexts, and every bucket holds every handle equally often in
/// both. This holds whether or not the interner has a handle for every new
/// text of the text: where it has not, neither way changes the table.
pub proof fn law_weighted_text_counts_like_repeats(
    entries: Map<Seq<usize>, Seq<usize>>,
    vocabulary: Seq<Seq<char>>,
    texts: Seq<Seq<char>>,
    state_size: nat,
    weight: nat,
)
    requires
        vocabulary.len() <= MAX_HANDLES,
        weight >= 1,
    ensures
        interned_repeatedly(vocabulary, texts, weight) == intern_while_room(vocabulary, texts),
        taught(entries, vocabulary, texts, state_size, weight).dom() == taught_repeatedly(
            entries,
            vocabulary,
            texts,
            state_size,
            weight,
        ).dom(),
        forall|context: Seq<usize>| #[trigger]
            taught(entries, vocabulary, texts, state_size, weight).contains_key(context) ==> taught(
                entries,
                vocabulary,
                texts,
                state_size,
                weight,
            )[context].to_multiset() == taught_repeatedly(
                entries,
                vocabulary,
                texts,
                state_size,
                weight,
            )[context].to_multiset(),
{
    lemma_rounds_of_text(entries, vocabulary, texts, state_size, weight);
    if has_room(vocabulary, texts) {
        law_weight_counts_like_repeats(
            entries,
            handles_of(intern_all(vocabulary, texts), texts),
            state_size,
            weight,
        );
    }
}

proof fn lemma_plain_rounds(
    before: RawMarkovChain,
    plain: Seq<RawMarkovChain>,
    texts: Seq<Seq<char>>,
    round: nat,
)
    requires
        round < plain.len(),
        plain[0].vocabulary() == before.vocabulary(),
        plain[0].entries() == before.entries(),
        plain[0].spec_state_size() == before.spec_state_size(),
        forall|k: int|
            0 <= k < plain.len() - 1 ==> (#[trigger] plain[k + 1]).learned(plain[k], texts, 1)
                && plain[k + 1].spec_state_size() == plain[k].spec_state_size(),
    ensures
        plain[round as int].spec_state_size() == before.spec_state_size(),
        plain[round as int].vocabulary() == interned_repeatedly(before.vocabulary(), texts, round),
        plain[round as int].entries() == taught_repeatedly(
            before.entries(),
            before.vocabulary(),
            texts,
            before.spec_state_size() as nat,
            round,
        ),
    decreases round,
{
    if round > 0 {
        lemma_plain_rounds(before, plain, texts, (round - 1) as nat);
        assert(plain[(round - 1) + 1].learned(plain[round - 1], texts, 1));
    }
}

/// For chains: a chain trained once on a text with weight `weight`, and a
/// chain that started alike and was trained `weight` times on the same
/// text with weight one, hold the same vocabulary, the same contexts, and
/// in every bucket every handle equally often. `plain` holds the second
/// chain before and after each of its rounds.
pub proof fn law_weighted_chain_counts_like_repeats(
    before: RawMarkovChain,
    weighted: RawMarkovChain,
    plain: Seq<RawMarkovChain>,
    texts: Seq<Seq<char>>,
    weight: nat,
)
    requires
        before.wf(),
        weight >= 1,
        weighted.learned(before, texts, weight),
        plain.len() == weight + 1,
        plain[0].vocabulary() == before.vocabulary(),
        plain[0].entries() == before.entries(),
        plain[0].spec_state_size() == before.spec_state_size(),
        forall|k: int|
            0 <= k < weight ==> (#[trigger] plain[k + 1]).learned(plain[k], texts, 1) && plain[k
                + 1].spec_state_size() == plain[k].spec_state_size(),
    ensures
        weighted.vocabulary() == plain[weight as int].vocabulary(),
        weighted.entries().dom() == plain[weight as int].entries().dom(),
        forall|context: Seq<usize>| #[trigger]
            weighted.entries().contains_key(context) ==> weighted.entries()[context].to_multiset()
                == plain[weight as int].entries()[context].to_multiset(),
{
    lemma_plain_rounds(before, plain, texts, weight);
    law_weighted_text_counts_like_repeats(
        before.entries(),
        before.vocabulary(),
        texts,
        before.spec_state_size() as nat,
        weight,
    );
}

} // verus!
