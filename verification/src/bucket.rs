//! Successor buckets: the handles seen after one context, one entry per sighting.

use crate::random::draw;
use vstd::prelude::*;

verus! {

/// `count` copies of `handle`.
pub open spec fn repeated(handle: usize, count: nat) -> Seq<usize> {
    Seq::new(count, |i: int| handle)
}

/// The successors recorded for one context.
///
/// A handle stands in the bucket once for every time it was seen, so drawing
/// an index uniformly draws a successor by its frequency.
pub struct ChainItem {
    items: Vec<usize>,
}

impl View for ChainItem {
    type V = Seq<usize>;

    closed spec fn view(&self) -> Seq<usize> {
        self.items@
    }
}

impl ChainItem {
    /// A bucket that holds `s` once.
    pub fn new(s: usize) -> (bucket: ChainItem)
        ensures
            bucket@ == seq![s],
    {
        let mut items: Vec<usize> = Vec::new();
        items.push(s);
        ChainItem { items }
    }

    /// A bucket that holds `s` `weight` times.
    pub fn new_weighted(s: usize, weight: usize) -> (bucket: ChainItem)
        ensures
            bucket@ == repeated(s, weight as nat),
    {
        let mut bucket = ChainItem { items: Vec::new() };
        bucket.add_weighted(s, weight);
        assert(Seq::<usize>::empty() + repeated(s, weight as nat) =~= repeated(s, weight as nat));
        bucket
    }

    /// A bucket that holds the given sightings, oldest first.
    pub fn from_items(items: Vec<usize>) -> (bucket: ChainItem)
        ensures
            bucket@ == items@,
    {
        ChainItem { items }
    }

    /// Records one more sighting of `s`.
    pub fn add(&mut self, s: usize)
        ensures
            final(self)@ == old(self)@.push(s),
    {
        self.items.push(s);
    }

    /// Records `weight` more sightings of `s`.
    pub fn add_weighted(&mut self, s: usize, weight: usize)
        ensures
            final(self)@ == old(self)@ + repeated(s, weight as nat),
    {
        let mut done: usize = 0;
        while done < weight
            invariant
                done <= weight,
                self@ == old(self)@ + repeated(s, done as nat),
            decreases weight - done,
        {
            self.items.push(s);
            assert(repeated(s, (done + 1) as nat) =~= repeated(s, done as nat).push(s));
            assert((old(self)@ + repeated(s, done as nat)).push(s) =~= old(self)@ + repeated(
                s,
                (done + 1) as nat,
            ));
            done = done + 1;
        }
        assert(self@ =~= old(self)@ + repeated(s, weight as nat));
    }

    /// The recorded sightings, oldest first.
    pub fn items(&self) -> (items: &Vec<usize>)
        ensures
            items@ == self@,
    {
        &self.items
    }

    /// How many sightings the bucket holds.
    pub fn len(&self) -> (n: usize)
        ensures
            n == self@.len(),
    {
        self.items.len()
    }

    /// Draws one recorded successor, each sighting being as likely as any other.
    ///
    /// Which one is drawn is up to `rng`; whatever it does, an empty bucket
    /// gives `None` and leaves `rng` as it was, and any other bucket gives
    /// one of its own handles.
    pub fn get_rand(&self, rng: &mut rand::rngs::StdRng) -> (picked: Option<usize>)
        ensures
            picked is None <==> self@.len() == 0,
            picked is None ==> *final(rng) == *old(rng),
            picked is Some ==> self@.contains(picked->0),
    {
        match draw(self.items.as_slice(), rng) {
            Some(picked) => Some(*picked),
            None => None,
        }
    }
}

impl Clone for ChainItem {
    /// A bucket that holds the same sightings in the same order.
    fn clone(&self) -> (copy: ChainItem)
        ensures
            copy@ == self@,
    {
        ChainItem { items: copy_of(&self.items) }
    }
}

/// A copy of `handles`.
pub(crate) fn copy_of(handles: &Vec<usize>) -> (copy: Vec<usize>)
    ensures
        copy@ == handles@,
{
    let mut copy: Vec<usize> = Vec::new();
    let mut i: usize = 0;
    while i < handles.len()
        invariant
            i <= handles@.len(),
            copy@ == handles@.take(i as int),
        decreases handles@.len() - i,
    {
        copy.push(handles[i]);
        assert(copy@ =~= handles@.take(i + 1));
        i = i + 1;
    }
    assert(handles@.take(handles@.len() as int) =~= handles@);
    copy
}

} // verus!
