//! The string interner: every distinct token text gets one dense handle.

use lasso::Key;
use vstd::prelude::*;

verus! {

/// `lasso::Spur`, the key type of the interner; nothing is said of what is inside.
#[verifier::external_type_specification]
#[verifier::external_body]
pub struct ExSpur(lasso::Spur);

/// `lasso::Rodeo`, the interner; what it holds is known through `interned` alone.
#[verifier::external_type_specification]
#[verifier::external_body]
#[verifier::reject_recursive_types(K)]
#[verifier::reject_recursive_types(S)]
pub struct ExRodeo<K, S>(lasso::Rodeo<K, S>);

/// One more than the largest handle the interner can give out.
pub const MAX_HANDLES: usize = 0xFFFF_FFFF;

/// The texts an interner holds, each at the position that is its handle.
pub uninterp spec fn interned(cache: lasso::Rodeo) -> Seq<Seq<char>>;

/// Calls `lasso::Rodeo::new`: the fresh interner holds no text.
#[verifier::external_body]
pub(crate) fn interner_new() -> (cache: lasso::Rodeo)
    ensures
        interned(cache) == Seq::<Seq<char>>::empty(),
{
    lasso::Rodeo::new()
}

/// Calls `lasso::Rodeo::with_capacity` with room for `capacity` strings: the
/// fresh interner holds no text. The bound keeps the two allocations it
/// makes within what a vector and a hash table can be asked for.
#[verifier::external_body]
pub(crate) fn interner_with_capacity(capacity: usize) -> (cache: lasso::Rodeo)
    requires
        capacity <= usize::MAX / 256,
    ensures
        interned(cache) == Seq::<Seq<char>>::empty(),
{
    lasso::Rodeo::with_capacity(lasso::Capacity::for_strings(capacity))
}

/// Calls `lasso::Rodeo::get_or_intern` and hands the key back as its index.
///
/// A text that is already held keeps its handle and changes nothing; a new
/// one is appended and gets the next free handle. The call panics once the
/// keys run out, which the bound on the number of texts excludes.
#[verifier::external_body]
pub(crate) fn interner_get_or_intern(cache: &mut lasso::Rodeo, text: &str) -> (handle: usize)
    requires
        interned(*old(cache)).len() < MAX_HANDLES,
    ensures
        handle < interned(*final(cache)).len(),
        interned(*final(cache))[handle as int] == text@,
        interned(*old(cache)).contains(text@) ==> interned(*final(cache)) == interned(*old(cache)),
        !interned(*old(cache)).contains(text@) ==> interned(*final(cache)) == interned(
            *old(cache),
        ).push(text@) && handle == interned(*old(cache)).len(),
{
    cache.get_or_intern(text).into_usize()
}

/// Calls `lasso::Rodeo::get`: the handle of a text that is held, `None` for
/// one that is not. The interner is not changed.
#[verifier::external_body]
pub(crate) fn interner_get(cache: &lasso::Rodeo, text: &str) -> (handle: Option<usize>)
    ensures
        handle is Some <==> interned(*cache).contains(text@),
        handle is Some ==> handle->0 < interned(*cache).len() && interned(*cache)[handle->0 as int]
            == text@,
{
    cache.get(text).map(|key| key.into_usize())
}

/// Calls `lasso::Rodeo::resolve` on the key with index `handle`: the text
/// held at that position. The call panics on a key the interner never gave
/// out, which the bound on `handle` excludes.
#[verifier::external_body]
pub(crate) fn interner_resolve<'a>(cache: &'a lasso::Rodeo, handle: usize) -> (text: &'a str)
    requires
        handle < interned(*cache).len(),
        handle < MAX_HANDLES,
    ensures
        text@ == interned(*cache)[handle as int],
{
    cache.resolve(&lasso::Spur::try_from_usize(handle).unwrap())
}

/// Calls `lasso::Rodeo::len`: the number of texts held.
#[verifier::external_body]
pub(crate) fn interner_len(cache: &lasso::Rodeo) -> (n: usize)
    ensures
        n == interned(*cache).len(),
{
    cache.len()
}

/// Calls `Clone::clone` of `lasso::Rodeo`: the copy holds the same texts
/// under the same handles.
#[verifier::external_body]
pub(crate) fn interner_clone(cache: &lasso::Rodeo) -> (copy: lasso::Rodeo)
    ensures
        interned(copy) == interned(*cache),
{
    cache.clone()
}

} // verus!
