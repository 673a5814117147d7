//! The random number generator that generation draws from.

use rand::seq::SliceRandom;
use vstd::prelude::*;

verus! {

/// `rand::rngs::StdRng`, the generator; nothing is said of its state.
#[verifier::external_type_specification]
#[verifier::external_body]
pub struct ExStdRng(rand::rngs::StdRng);

/// Calls `rand::seq::SliceRandom::choose` on `items`.
///
/// Nothing is claimed about which element is drawn, nor about what a draw
/// does to the generator: only that an empty slice gives `None` without
/// touching the generator, and that anything else gives one of the elements.
#[verifier::external_body]
pub(crate) fn draw<'a, T>(items: &'a [T], rng: &mut rand::rngs::StdRng) -> (picked: Option<&'a T>)
    ensures
        picked is None <==> items@.len() == 0,
        picked is None ==> *final(rng) == *old(rng),
        picked is Some ==> items@.contains(*picked->0),
{
    items.choose(rng)
}

} // verus!
