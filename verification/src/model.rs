//! The mathematics of the chain: what training records and what generation may say.
//!
//! Everything here is stated over sequences of handles and over maps from
//! contexts to buckets, with no reference to how the table is stored.

use crate::bucket::repeated;
use crate::interner::MAX_HANDLES;
use vstd::prelude::*;

verus! {

/// The bucket that `entries` holds for `context`; empty where it holds none.
pub open spec fn bucket_of(entries: Map<Seq<usize>, Seq<usize>>, context: Seq<usize>) -> Seq<
    usize,
> {
    if entries.contains_key(context) {
        entries[context]
    } else {
        Seq::empty()
    }
}

/// The vocabulary after `text` has been interned.
pub open spec fn intern_one(vocabulary: Seq<Seq<char>>, text: Seq<char>) -> Seq<Seq<char>> {
    if vocabulary.contains(text) {
        vocabulary
    } else {
        vocabulary.push(text)
    }
}

/// The vocabulary after every text of `texts` has been interned, first to last.
pub open spec fn intern_all(vocabulary: Seq<Seq<char>>, texts: Seq<Seq<char>>) -> Seq<Seq<char>>
    decreases texts.len(),
{
    if texts.len() == 0 {
        vocabulary
    } else {
        intern_one(intern_all(vocabulary, texts.drop_last()), texts.last())
    }
}

/// The vocabulary after `text` has been interned for as far as there is
/// room: a text that is held already changes nothing, a new one is taken in
/// if a handle is left for it, and is passed over if none is.
pub open spec fn intern_one_while_room(vocabulary: Seq<Seq<char>>, text: Seq<char>) -> Seq<
    Seq<char>,
> {
    if vocabulary.contains(text) || vocabulary.len() >= MAX_HANDLES {
        vocabulary
    } else {
        vocabulary.push(text)
    }
}

/// The vocabulary after every text of `texts` has been interned, first to
/// last, for as far as there is room.
pub open spec fn intern_while_room(vocabulary: Seq<Seq<char>>, texts: Seq<Seq<char>>) -> Seq<
    Seq<char>,
>
    decreases texts.len(),
{
    if texts.len() == 0 {
        vocabulary
    } else {
        intern_one_while_room(intern_while_room(vocabulary, texts.drop_last()), texts.last())
    }
}

/// Whether there is a handle for every text of `texts`: interning them all
/// does not take the vocabulary past the last handle. Texts that are held
/// already, and texts that come twice, need no handle of their own.
pub open spec fn has_room(vocabulary: Seq<Seq<char>>, texts: Seq<Seq<char>>) -> bool {
    intern_all(vocabulary, texts).len() <= MAX_HANDLES
}

/// Whether `handles` names the texts of `texts`, one for one, in `vocabulary`.
pub open spec fn spells(
    vocabulary: Seq<Seq<char>>,
    handles: Seq<usize>,
    texts: Seq<Seq<char>>,
) -> bool {
    &&& handles.len() == texts.len()
    &&& forall|i: int|
        0 <= i < handles.len() ==> #[trigger] handles[i] < vocabulary.len()
            && vocabulary[handles[i] as int] == texts[i]
}

/// The handles under which `vocabulary` holds the texts of `texts`.
pub open spec fn handles_of(vocabulary: Seq<Seq<char>>, texts: Seq<Seq<char>>) -> Seq<usize> {
    Seq::new(texts.len(), |i: int| vocabulary.index_of(texts[i]) as usize)
}

/// Whether every handle of `handles` is one that a vocabulary of `known` texts gave out.
pub open spec fn all_known(handles: Seq<usize>, known: nat) -> bool {
    forall|i: int| 0 <= i < handles.len() ==> handles[i] < known
}

/// The length of the windows that training slides over `tokens` tokens:
/// a context of up to `state_size` tokens and the token that follows it.
pub open spec fn window_len(tokens: nat, state_size: nat) -> nat {
    if tokens <= state_size {
        tokens
    } else {
        state_size + 1
    }
}

/// What the token at position `at` adds to the bucket of `context`: `weight`
/// copies of itself where `context` is what stands right before it and is
/// shorter than the window, nothing otherwise.
pub open spec fn hit(
    tokens: Seq<usize>,
    width: nat,
    weight: nat,
    context: Seq<usize>,
    at: int,
) -> Seq<usize> {
    if 1 <= context.len() < width && context.len() <= at < tokens.len() && tokens.subrange(
        at - context.len(),
        at,
    ) == context {
        repeated(tokens[at], weight)
    } else {
        Seq::empty()
    }
}

/// What training adds to the bucket of `context` from the tokens that close
/// a window and stand before position `upto`, in the order of the text.
pub open spec fn sightings(
    tokens: Seq<usize>,
    width: nat,
    weight: nat,
    context: Seq<usize>,
    upto: int,
) -> Seq<usize>
    decreases upto,
{
    if upto <= 0 || upto < width {
        Seq::empty()
    } else {
        sightings(tokens, width, weight, context, upto - 1) + hit(
            tokens,
            width,
            weight,
            context,
            upto - 1,
        )
    }
}

/// The table after training on `tokens`: every bucket keeps what it held and
/// gains the sightings of its context; a context without a bucket gets one
/// as soon as it is sighted.
pub open spec fn trained(
    entries: Map<Seq<usize>, Seq<usize>>,
    tokens: Seq<usize>,
    state_size: nat,
    weight: nat,
) -> Map<Seq<usize>, Seq<usize>> {
    let width = window_len(tokens.len(), state_size);
    Map::new(
        |context: Seq<usize>|
            entries.contains_key(context) || sightings(
                tokens,
                width,
                weight,
                context,
                tokens.len() as int,
            ).len() > 0,
        |context: Seq<usize>|
            bucket_of(entries, context) + sightings(
                tokens,
                width,
                weight,
                context,
                tokens.len() as int,
            ),
    )
}

/// The table after training on a text with the tokens `texts`: trained on
/// the handles of the tokens where there is a handle for every new text,
/// as it was where there is not.
pub open spec fn taught(
    entries: Map<Seq<usize>, Seq<usize>>,
    vocabulary: Seq<Seq<char>>,
    texts: Seq<Seq<char>>,
    state_size: nat,
    weight: nat,
) -> Map<Seq<usize>, Seq<usize>> {
    if has_room(vocabulary, texts) {
        trained(entries, handles_of(intern_all(vocabulary, texts), texts), state_size, weight)
    } else {
        entries
    }
}

/// The vocabulary after `rounds` rounds of interning the texts of `texts`
/// for as far as there is room.
pub open spec fn interned_repeatedly(
    vocabulary: Seq<Seq<char>>,
    texts: Seq<Seq<char>>,
    rounds: nat,
) -> Seq<Seq<char>>
    decreases rounds,
{
    if rounds == 0 {
        vocabulary
    } else {
        intern_while_room(interned_repeatedly(vocabulary, texts, (rounds - 1) as nat), texts)
    }
}

/// The table after `rounds` rounds of training with weight one on a text
/// with the tokens `texts`, each round starting from the table and the
/// vocabulary that the round before left.
pub open spec fn taught_repeatedly(
    entries: Map<Seq<usize>, Seq<usize>>,
    vocabulary: Seq<Seq<char>>,
    texts: Seq<Seq<char>>,
    state_size: nat,
    rounds: nat,
) -> Map<Seq<usize>, Seq<usize>>
    decreases rounds,
{
    if rounds == 0 {
        entries
    } else {
        taught(
            taught_repeatedly(entries, vocabulary, texts, state_size, (rounds - 1) as nat),
            interned_repeatedly(vocabulary, texts, (rounds - 1) as nat),
            texts,
            state_size,
            1,
        )
    }
}

/// The table after `rounds` rounds of training on `tokens` with weight one.
pub open spec fn trained_repeatedly(
    entries: Map<Seq<usize>, Seq<usize>>,
    tokens: Seq<usize>,
    state_size: nat,
    rounds: nat,
) -> Map<Seq<usize>, Seq<usize>>
    decreases rounds,
{
    if rounds == 0 {
        entries
    } else {
        trained(trained_repeatedly(entries, tokens, state_size, (rounds - 1) as nat), tokens, state_size, 1)
    }
}

/// What training has added to the bucket of `context` part-way through the
/// window that closes at `at`: everything from the windows before it, and
/// this window's own sighting if `context` is shorter than `shorter_than`.
pub open spec fn progress(
    tokens: Seq<usize>,
    width: nat,
    weight: nat,
    context: Seq<usize>,
    at: int,
    shorter_than: int,
) -> Seq<usize> {
    sightings(tokens, width, weight, context, at) + if context.len() < shorter_than {
        hit(tokens, width, weight, context, at)
    } else {
        Seq::empty()
    }
}

/// The table part-way through training, as `progress` describes it.
pub open spec fn partly_trained(
    entries: Map<Seq<usize>, Seq<usize>>,
    tokens: Seq<usize>,
    width: nat,
    weight: nat,
    at: int,
    shorter_than: int,
) -> Map<Seq<usize>, Seq<usize>> {
    Map::new(
        |context: Seq<usize>|
            entries.contains_key(context) || progress(
                tokens,
                width,
                weight,
                context,
                at,
                shorter_than,
            ).len() > 0,
        |context: Seq<usize>|
            bucket_of(entries, context) + progress(tokens, width, weight, context, at, shorter_than),
    )
}

/// The table without any context.
pub open spec fn no_entries() -> Map<Seq<usize>, Seq<usize>> {
    Map::empty()
}

/// Whether a table, a vocabulary and a state size fit together: the table
/// is finite, no text is interned twice, every context has between one and
/// `state_size` handles, no bucket is empty, and every handle in the table
/// is one the vocabulary gave out.
pub open spec fn well_formed(
    entries: Map<Seq<usize>, Seq<usize>>,
    vocabulary: Seq<Seq<char>>,
    state_size: nat,
) -> bool {
    &&& entries.dom().finite()
    &&& vocabulary.no_duplicates()
    &&& vocabulary.len() <= MAX_HANDLES
    &&& forall|context: Seq<usize>| #[trigger]
        entries.contains_key(context) ==> {
            &&& 1 <= context.len() <= state_size
            &&& entries[context].len() >= 1
            &&& all_known(context, vocabulary.len())
            &&& all_known(entries[context], vocabulary.len())
        }
}

/// Whether `pairs` lists `entries`: every pair is a context of the table
/// with its bucket, every context of the table is in a pair, and no context
/// is in two.
pub open spec fn lists(
    pairs: Seq<(Seq<usize>, Seq<usize>)>,
    entries: Map<Seq<usize>, Seq<usize>>,
) -> bool {
    &&& forall|i: int|
        0 <= i < pairs.len() ==> entries.contains_key((#[trigger] pairs[i]).0) && entries[pairs[i].0]
            == pairs[i].1
    &&& forall|context: Seq<usize>| #[trigger]
        entries.contains_key(context) ==> exists|i: int|
            0 <= i < pairs.len() && (#[trigger] pairs[i]).0 == context
    &&& forall|i: int, j: int|
        0 <= i < j < pairs.len() ==> (#[trigger] pairs[i]).0 != (#[trigger] pairs[j]).0
}

/// Whether one pair can stand in the table of a chain with this state size
/// and this many interned texts.
pub open spec fn pair_fits(pair: (Seq<usize>, Seq<usize>), known: nat, state_size: nat) -> bool {
    &&& 1 <= pair.0.len() <= state_size
    &&& pair.1.len() >= 1
    &&& all_known(pair.0, known)
    &&& all_known(pair.1, known)
}

/// Whether a chain can be put together from these parts: no text twice,
/// no more texts than there are handles, every pair fit for the table, and
/// no context in two pairs.
pub open spec fn parts_fit(
    state_size: nat,
    vocabulary: Seq<Seq<char>>,
    pairs: Seq<(Seq<usize>, Seq<usize>)>,
) -> bool {
    &&& vocabulary.no_duplicates()
    &&& vocabulary.len() <= MAX_HANDLES
    &&& forall|i: int|
        0 <= i < pairs.len() ==> pair_fits(#[trigger] pairs[i], vocabulary.len(), state_size)
    &&& forall|i: int, j: int|
        0 <= i < j < pairs.len() ==> (#[trigger] pairs[i]).0 != (#[trigger] pairs[j]).0
}

/// The part of `prior` from position `start` on.
pub open spec fn suffix_from(prior: Seq<usize>, start: int) -> Seq<usize> {
    prior.subrange(start, prior.len() as int)
}

/// The longest suffix of `prior` that starts at `start` or later, is not
/// empty, and has a bucket in `entries`.
pub open spec fn backoff(entries: Map<Seq<usize>, Seq<usize>>, prior: Seq<usize>, start: int) -> Option<
    Seq<usize>,
>
    decreases prior.len() - start,
{
    if start < 0 || start >= prior.len() {
        None
    } else if entries.contains_key(suffix_from(prior, start)) {
        Some(suffix_from(prior, start))
    } else {
        backoff(entries, prior, start + 1)
    }
}

/// The context that generation goes by after `prior`: its longest suffix
/// with a bucket, if it has one.
pub open spec fn known_context(entries: Map<Seq<usize>, Seq<usize>>, prior: Seq<usize>) -> Option<
    Seq<usize>,
> {
    backoff(entries, prior, 0)
}

/// Whether generation may say `next` after `prior`: `next` is in the bucket
/// of the longest known suffix of `prior`, or, where no suffix is known, in
/// any bucket at all.
pub open spec fn may_follow(entries: Map<Seq<usize>, Seq<usize>>, prior: Seq<usize>, next: usize) -> bool {
    match known_context(entries, prior) {
        Some(context) => entries[context].contains(next),
        None => exists|context: Seq<usize>| #[trigger]
            entries.contains_key(context) && entries[context].contains(next),
    }
}

/// The last `count` elements of `handles`, or all of them if there are fewer.
pub open spec fn last_of(handles: Seq<usize>, count: nat) -> Seq<usize> {
    if handles.len() <= count {
        handles
    } else {
        handles.subrange(handles.len() - count, handles.len() as int)
    }
}

/// The window of recent handles after `next` has been said: `next` joins at
/// the back, and the oldest handle leaves once there are more than `state_size`.
pub open spec fn slide(window: Seq<usize>, next: usize, state_size: nat) -> Seq<usize> {
    last_of(window.push(next), state_size)
}

/// The window that generation looks at before step `step` of a walk that
/// started from `start` and has said `picks` so far.
pub open spec fn window_at(start: Seq<usize>, picks: Seq<usize>, state_size: nat, step: int) -> Seq<
    usize,
> {
    last_of(start + picks.take(step), state_size)
}

/// Whether `picks` is a walk that generation can take from `start`: every
/// pick may follow the window left by the picks before it.
pub open spec fn is_walk(
    entries: Map<Seq<usize>, Seq<usize>>,
    state_size: nat,
    start: Seq<usize>,
    picks: Seq<usize>,
) -> bool {
    forall|step: int|
        0 <= step < picks.len() ==> may_follow(
            entries,
            window_at(start, picks, state_size, step),
            #[trigger] picks[step],
        )
}

/// The texts that `picks` stands for.
pub open spec fn words_of(vocabulary: Seq<Seq<char>>, picks: Seq<usize>) -> Seq<Seq<char>> {
    Seq::new(picks.len(), |i: int| vocabulary[picks[i] as int])
}

/// `words` with one space between neighbours and none at either end.
pub open spec fn joined(words: Seq<Seq<char>>) -> Seq<char>
    decreases words.len(),
{
    if words.len() == 0 {
        Seq::empty()
    } else if words.len() == 1 {
        words[0]
    } else {
        joined(words.drop_last()) + seq![' '] + words.last()
    }
}

/// Whether a walk of `length` steps from `start` can yield the texts `words`, one per step.
pub open spec fn yields(
    entries: Map<Seq<usize>, Seq<usize>>,
    vocabulary: Seq<Seq<char>>,
    state_size: nat,
    start: Seq<usize>,
    length: nat,
    words: Seq<Seq<char>>,
) -> bool {
    exists|picks: Seq<usize>|
        {
            &&& picks.len() == length
            &&& #[trigger] is_walk(entries, state_size, start, picks)
            &&& all_known(picks, vocabulary.len())
            &&& words == words_of(vocabulary, picks)
        }
}

/// Whether a walk of `length` steps from `start` can say `text`: the texts
/// it yields, with a space between neighbours.
pub open spec fn says(
    entries: Map<Seq<usize>, Seq<usize>>,
    vocabulary: Seq<Seq<char>>,
    state_size: nat,
    start: Seq<usize>,
    length: nat,
    text: Seq<char>,
) -> bool {
    exists|words: Seq<Seq<char>>| #[trigger]
        yields(entries, vocabulary, state_size, start, length, words) && text == joined(words)
}

/// The handles of those texts of `texts` that `vocabulary` holds, in order;
/// texts that it does not hold are passed over.
pub open spec fn known_handles(vocabulary: Seq<Seq<char>>, texts: Seq<Seq<char>>) -> Seq<usize>
    decreases texts.len(),
{
    if texts.len() == 0 {
        Seq::empty()
    } else {
        let before = known_handles(vocabulary, texts.drop_last());
        if vocabulary.contains(texts.last()) {
            before.push(vocabulary.index_of(texts.last()) as usize)
        } else {
            before
        }
    }
}

/// The window that a start phrase with the tokens `texts` leaves: the last
/// `state_size` of its known handles.
pub open spec fn seed_window(vocabulary: Seq<Seq<char>>, texts: Seq<Seq<char>>, state_size: nat) -> Seq<
    usize,
> {
    last_of(known_handles(vocabulary, texts), state_size)
}

/// Before the first window closes, training has changed nothing.
pub proof fn lemma_training_begins(
    entries: Map<Seq<usize>, Seq<usize>>,
    tokens: Seq<usize>,
    width: nat,
    weight: nat,
)
    requires
        width >= 1,
    ensures
        partly_trained(entries, tokens, width, weight, width - 1, 1) == entries,
{
    let start = partly_trained(entries, tokens, width, weight, width - 1, 1);
    assert forall|c: Seq<usize>| start.contains_key(c) == entries.contains_key(c) by {
        assert(sightings(tokens, width, weight, c, width - 1) =~= Seq::<usize>::empty());
        assert(progress(tokens, width, weight, c, width - 1, 1) =~= Seq::<usize>::empty());
    }
    assert forall|c: Seq<usize>| start.contains_key(c) implies #[trigger] start[c] == entries[c] by {
        assert(sightings(tokens, width, weight, c, width - 1) =~= Seq::<usize>::empty());
        assert(progress(tokens, width, weight, c, width - 1, 1) =~= Seq::<usize>::empty());
        assert(entries[c] + Seq::<usize>::empty() =~= entries[c]);
    }
    assert(start =~= entries);
}

/// Recording the sighting of one context length within a window moves
/// training from that length to the next.
pub proof fn lemma_training_step(
    entries: Map<Seq<usize>, Seq<usize>>,
    tokens: Seq<usize>,
    width: nat,
    weight: nat,
    at: int,
    len: int,
)
    requires
        weight > 0,
        1 <= len < width,
        len <= at < tokens.len(),
    ensures
        ({
            let now = partly_trained(entries, tokens, width, weight, at, len);
            let context = tokens.subrange(at - len, at);
            now.insert(context, bucket_of(now, context) + repeated(tokens[at], weight))
                == partly_trained(entries, tokens, width, weight, at, len + 1)
        }),
{
    let now = partly_trained(entries, tokens, width, weight, at, len);
    let next = partly_trained(entries, tokens, width, weight, at, len + 1);
    let context = tokens.subrange(at - len, at);
    let added = repeated(tokens[at], weight);
    let after = now.insert(context, bucket_of(now, context) + added);
    assert(hit(tokens, width, weight, context, at) == added);
    assert(added.len() == weight);
    assert forall|c: Seq<usize>| after.contains_key(c) == next.contains_key(c) by {
        if c != context {
            assert(progress(tokens, width, weight, c, at, len + 1) == progress(
                tokens,
                width,
                weight,
                c,
                at,
                len,
            ));
        }
    }
    assert forall|c: Seq<usize>| after.contains_key(c) implies #[trigger] after[c] == next[c] by {
        if c == context {
            let seen = sightings(tokens, width, weight, c, at);
            assert(progress(tokens, width, weight, c, at, len) =~= seen);
            assert(bucket_of(now, c) =~= bucket_of(entries, c) + seen);
            assert(after[c] =~= bucket_of(entries, c) + (seen + added));
        } else {
            assert(progress(tokens, width, weight, c, at, len + 1) == progress(
                tokens,
                width,
                weight,
                c,
                at,
                len,
            ));
        }
    }
    assert(after =~= next);
}

/// What a context has gained once its window is done is what it has gained
/// before the next window begins.
pub proof fn lemma_progress_wraps(
    tokens: Seq<usize>,
    width: nat,
    weight: nat,
    context: Seq<usize>,
    at: int,
)
    requires
        width >= 1,
        at >= width - 1,
    ensures
        progress(tokens, width, weight, context, at, width as int) == progress(
            tokens,
            width,
            weight,
            context,
            at + 1,
            1,
        ),
{
    assert(sightings(tokens, width, weight, context, at + 1) == sightings(
        tokens,
        width,
        weight,
        context,
        at,
    ) + hit(tokens, width, weight, context, at));
    assert(progress(tokens, width, weight, context, at, width as int) =~= progress(
        tokens,
        width,
        weight,
        context,
        at + 1,
        1,
    ));
}

/// Once every context length of a window is recorded, training stands at
/// the start of the next window.
pub proof fn lemma_training_next_window(
    entries: Map<Seq<usize>, Seq<usize>>,
    tokens: Seq<usize>,
    width: nat,
    weight: nat,
    at: int,
)
    requires
        width >= 1,
        at >= width - 1,
    ensures
        partly_trained(entries, tokens, width, weight, at, width as int) == partly_trained(
            entries,
            tokens,
            width,
            weight,
            at + 1,
            1,
        ),
{
    let done = partly_trained(entries, tokens, width, weight, at, width as int);
    let fresh = partly_trained(entries, tokens, width, weight, at + 1, 1);
    assert forall|c: Seq<usize>| done.contains_key(c) == fresh.contains_key(c) by {
        lemma_progress_wraps(tokens, width, weight, c, at);
    }
    assert forall|c: Seq<usize>| done.contains_key(c) implies #[trigger] done[c] == fresh[c] by {
        lemma_progress_wraps(tokens, width, weight, c, at);
    }
    assert(done =~= fresh);
}

/// After the last window, training has made the table that `trained` describes.
pub proof fn lemma_training_ends(
    entries: Map<Seq<usize>, Seq<usize>>,
    tokens: Seq<usize>,
    state_size: nat,
    weight: nat,
)
    ensures
        partly_trained(
            entries,
            tokens,
            window_len(tokens.len(), state_size),
            weight,
            tokens.len() as int,
            1,
        ) == trained(entries, tokens, state_size, weight),
{
    let width = window_len(tokens.len(), state_size);
    let n = tokens.len() as int;
    let done = partly_trained(entries, tokens, width, weight, n, 1);
    let goal = trained(entries, tokens, state_size, weight);
    assert forall|c: Seq<usize>| done.contains_key(c) == goal.contains_key(c) by {
        assert(progress(tokens, width, weight, c, n, 1) =~= sightings(tokens, width, weight, c, n));
    }
    assert forall|c: Seq<usize>| done.contains_key(c) implies #[trigger] done[c] == goal[c] by {
        assert(progress(tokens, width, weight, c, n, 1) =~= sightings(tokens, width, weight, c, n));
    }
    assert(done =~= goal);
}

/// With weight zero no token is ever sighted.
pub proof fn lemma_no_weight_no_sightings(
    tokens: Seq<usize>,
    width: nat,
    context: Seq<usize>,
    upto: int,
)
    ensures
        sightings(tokens, width, 0, context, upto) == Seq::<usize>::empty(),
    decreases upto,
{
    if upto <= 0 || upto < width {
    } else {
        lemma_no_weight_no_sightings(tokens, width, context, upto - 1);
        assert(hit(tokens, width, 0, context, upto - 1) =~= Seq::<usize>::empty());
        assert(sightings(tokens, width, 0, context, upto) =~= Seq::<usize>::empty());
    }
}

/// A window of a single token holds no context, so nothing is sighted.
pub proof fn lemma_narrow_window_no_sightings(
    tokens: Seq<usize>,
    width: nat,
    weight: nat,
    context: Seq<usize>,
    upto: int,
)
    requires
        width <= 1,
    ensures
        sightings(tokens, width, weight, context, upto) == Seq::<usize>::empty(),
    decreases upto,
{
    if upto <= 0 || upto < width {
    } else {
        lemma_narrow_window_no_sightings(tokens, width, weight, context, upto - 1);
        assert(sightings(tokens, width, weight, context, upto) =~= Seq::<usize>::empty());
    }
}

/// Training that sights nothing leaves the table as it was.
pub proof fn lemma_nothing_sighted_nothing_trained(
    entries: Map<Seq<usize>, Seq<usize>>,
    tokens: Seq<usize>,
    state_size: nat,
    weight: nat,
)
    requires
        forall|c: Seq<usize>|
            sightings(
                tokens,
                window_len(tokens.len(), state_size),
                weight,
                c,
                tokens.len() as int,
            ) == Seq::<usize>::empty(),
    ensures
        trained(entries, tokens, state_size, weight) == entries,
{
    let goal = trained(entries, tokens, state_size, weight);
    let width = window_len(tokens.len(), state_size);
    assert forall|c: Seq<usize>| goal.contains_key(c) == entries.contains_key(c) by {
        assert(sightings(tokens, width, weight, c, tokens.len() as int) == Seq::<usize>::empty());
    }
    assert forall|c: Seq<usize>| goal.contains_key(c) implies #[trigger] goal[c] == entries[c] by {
        assert(sightings(tokens, width, weight, c, tokens.len() as int) == Seq::<usize>::empty());
        assert(entries[c] + Seq::<usize>::empty() =~= entries[c]);
    }
    assert(goal =~= entries);
}

/// A handle that stands in a sequence of known handles is known.
pub proof fn lemma_member_is_known(handles: Seq<usize>, known: nat, handle: usize)
    requires
        all_known(handles, known),
        handles.contains(handle),
    ensures
        handle < known,
{
    let i = choose|i: int| 0 <= i < handles.len() && handles[i] == handle;
    assert(handles[i] < known);
}

/// Keeping the last handles commutes with saying one more: the window after
/// a step is the same whether or not older handles were dropped before it.
pub proof fn lemma_slide_keeps_last(handles: Seq<usize>, next: usize, state_size: nat)
    ensures
        slide(last_of(handles, state_size), next, state_size) == last_of(
            handles.push(next),
            state_size,
        ),
{
    assert(slide(last_of(handles, state_size), next, state_size) =~= last_of(
        handles.push(next),
        state_size,
    ));
}

/// One step moves the window of a walk from one position to the next.
pub proof fn lemma_window_advances(start: Seq<usize>, picks: Seq<usize>, state_size: nat, step: int)
    requires
        0 <= step < picks.len(),
    ensures
        slide(window_at(start, picks, state_size, step), picks[step], state_size) == window_at(
            start,
            picks,
            state_size,
            step + 1,
        ),
{
    lemma_slide_keeps_last(start + picks.take(step), picks[step], state_size);
    assert((start + picks.take(step)).push(picks[step]) =~= start + picks.take(step + 1));
}

/// A walk stays a walk when a handle that may follow its last window is added.
pub proof fn lemma_walk_extends(
    entries: Map<Seq<usize>, Seq<usize>>,
    state_size: nat,
    start: Seq<usize>,
    picks: Seq<usize>,
    next: usize,
)
    requires
        is_walk(entries, state_size, start, picks),
        may_follow(entries, window_at(start, picks, state_size, picks.len() as int), next),
    ensures
        is_walk(entries, state_size, start, picks.push(next)),
{
    let longer = picks.push(next);
    assert forall|step: int| 0 <= step < longer.len() implies may_follow(
        entries,
        window_at(start, longer, state_size, step),
        #[trigger] longer[step],
    ) by {
        assert(longer.take(step) =~= picks.take(step));
        if step < picks.len() {
            assert(longer[step] == picks[step]);
        }
    }
}

/// Joining one more word puts a space before it, unless it is the first.
pub proof fn lemma_joined_push(words: Seq<Seq<char>>, word: Seq<char>)
    ensures
        joined(words.push(word)) == if words.len() == 0 {
            word
        } else {
            joined(words) + seq![' '] + word
        },
{
    assert(words.push(word).drop_last() =~= words);
}

/// The texts of a longer sequence of picks are the texts of the shorter one
/// and the text of the new pick.
pub proof fn lemma_words_push(vocabulary: Seq<Seq<char>>, picks: Seq<usize>, next: usize)
    ensures
        words_of(vocabulary, picks.push(next)) == words_of(vocabulary, picks).push(
            vocabulary[next as int],
        ),
{
    assert(words_of(vocabulary, picks.push(next)) =~= words_of(vocabulary, picks).push(
        vocabulary[next as int],
    ));
}

/// A table whose contexts may hold no handle at all holds no context.
pub proof fn lemma_no_room_no_entries(entries: Map<Seq<usize>, Seq<usize>>, vocabulary: Seq<Seq<char>>)
    requires
        well_formed(entries, vocabulary, 0),
    ensures
        entries == no_entries(),
        entries.dom().len() == 0,
{
    assert forall|context: Seq<usize>| !entries.contains_key(context) by {
        if entries.contains_key(context) {
            assert(1 <= context.len() <= 0);
        }
    }
    assert(entries =~= no_entries());
    assert(entries.dom() =~= Set::<Seq<usize>>::empty());
}

/// Interning never shrinks the vocabulary: after a part of the texts it is
/// no longer than after all of them.
pub proof fn lemma_intern_all_grows(vocabulary: Seq<Seq<char>>, texts: Seq<Seq<char>>, part: int)
    requires
        0 <= part <= texts.len(),
    ensures
        intern_all(vocabulary, texts.take(part)).len() <= intern_all(vocabulary, texts).len(),
    decreases texts.len(),
{
    if part == texts.len() {
        assert(texts.take(part) =~= texts);
    } else {
        assert(texts.drop_last().take(part) =~= texts.take(part));
        lemma_intern_all_grows(vocabulary, texts.drop_last(), part);
    }
}

/// Once the vocabulary is full, interning while there is room adds nothing:
/// what it is after a part of the texts it is after all of them.
pub proof fn lemma_full_vocabulary_stays(
    vocabulary: Seq<Seq<char>>,
    texts: Seq<Seq<char>>,
    part: int,
)
    requires
        0 <= part <= texts.len(),
        intern_while_room(vocabulary, texts.take(part)).len() >= MAX_HANDLES,
    ensures
        intern_while_room(vocabulary, texts) == intern_while_room(vocabulary, texts.take(part)),
    decreases texts.len(),
{
    if part == texts.len() {
        assert(texts.take(part) =~= texts);
    } else {
        assert(texts.drop_last().take(part) =~= texts.take(part));
        lemma_full_vocabulary_stays(vocabulary, texts.drop_last(), part);
    }
}

/// Where there is room for every text, interning while there is room is
/// plain interning.
pub proof fn lemma_room_for_all(vocabulary: Seq<Seq<char>>, texts: Seq<Seq<char>>)
    requires
        has_room(vocabulary, texts),
    ensures
        intern_while_room(vocabulary, texts) == intern_all(vocabulary, texts),
    decreases texts.len(),
{
    if texts.len() > 0 {
        assert(texts.take(texts.len() - 1) =~= texts.drop_last());
        lemma_intern_all_grows(vocabulary, texts, texts.len() - 1);
        lemma_room_for_all(vocabulary, texts.drop_last());
    }
}

} // verus!
