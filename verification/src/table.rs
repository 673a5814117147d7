//! The transition table: a hash map from contexts to successor buckets.

use crate::bucket::ChainItem;
use crate::interner::MAX_HANDLES;
use crate::model::lists;
use lasso::Key;
use vstd::prelude::*;

verus! {

/// A `hashbrown::HashMap` from contexts to buckets, hashed with a fixed seed.
///
/// Contexts are stored as short vectors of interner keys; towards the rest
/// of the library every key is the index it stands for.
#[verifier::external_body]
pub struct Table {
    inner: hashbrown::HashMap<
        smallvec::SmallVec<[lasso::Spur; 4]>,
        ChainItem,
        foldhash::fast::FixedState,
    >,
}

/// What a table holds: for every stored context, the contents of its bucket.
pub uninterp spec fn table_entries(table: Table) -> Map<Seq<usize>, Seq<usize>>;

/// Whether every handle of `key` can be written as an interner key.
pub open spec fn key_fits(key: Seq<usize>) -> bool {
    forall|i: int| 0 <= i < key.len() ==> key[i] < MAX_HANDLES
}

/// Calls `hashbrown::HashMap::with_hasher` with the default
/// `foldhash::fast::FixedState`: the fresh table holds nothing.
#[verifier::external_body]
pub(crate) fn table_new() -> (table: Table)
    ensures
        table_entries(table).dom() == Set::<Seq<usize>>::empty(),
{
    Table { inner: hashbrown::HashMap::with_hasher(foldhash::fast::FixedState::default()) }
}

/// Calls `hashbrown::HashMap::with_capacity_and_hasher`: the fresh table
/// holds nothing. The bound keeps the size of the allocation it asks for
/// from overflowing.
#[verifier::external_body]
pub(crate) fn table_with_capacity(capacity: usize) -> (table: Table)
    requires
        capacity <= usize::MAX / 256,
    ensures
        table_entries(table).dom() == Set::<Seq<usize>>::empty(),
{
    Table {
        inner: hashbrown::HashMap::with_capacity_and_hasher(
            capacity,
            foldhash::fast::FixedState::default(),
        ),
    }
}

/// Calls `hashbrown::HashMap::len`: the number of stored contexts.
#[verifier::external_body]
pub(crate) fn table_len(table: &Table) -> (n: usize)
    ensures
        n == table_entries(*table).dom().len(),
{
    table.inner.len()
}

/// Calls `hashbrown::HashMap::get`: the bucket stored under `key`, `None` if
/// the table has no such context.
#[verifier::external_body]
pub(crate) fn table_get<'a>(table: &'a Table, key: &[usize]) -> (bucket: Option<&'a ChainItem>)
    requires
        key_fits(key@),
    ensures
        bucket is Some <==> table_entries(*table).contains_key(key@),
        bucket is Some ==> bucket->0@ == table_entries(*table)[key@],
{
    let stored: smallvec::SmallVec<[lasso::Spur; 4]> =
        key.iter().map(|h| lasso::Spur::try_from_usize(*h).unwrap()).collect();
    table.inner.get(&stored)
}

/// Calls `hashbrown::HashMap::get_mut`: the bucket stored under `key`, open
/// for change, or `None` if the table has no such context. Whatever the
/// caller leaves in the bucket is what the table then holds under `key`;
/// nothing else in the table moves.
#[verifier::external_body]
pub(crate) fn table_get_mut<'a>(table: &'a mut Table, key: &[usize]) -> (bucket: Option<
    &'a mut ChainItem,
>)
    requires
        key_fits(key@),
    ensures
        bucket is Some <==> table_entries(*old(table)).contains_key(key@),
        bucket is None ==> table_entries(*final(table)) == table_entries(*old(table)),
        bucket is Some ==> bucket->0@ == table_entries(*old(table))[key@] && table_entries(
            *final(table),
        ) == table_entries(*old(table)).insert(key@, final(bucket->0)@),
{
    let stored: smallvec::SmallVec<[lasso::Spur; 4]> =
        key.iter().map(|h| lasso::Spur::try_from_usize(*h).unwrap()).collect();
    table.inner.get_mut(&stored)
}

/// Calls `hashbrown::HashMap::insert`: afterwards the table holds `bucket`
/// under `key`, and every other context as before.
#[verifier::external_body]
pub(crate) fn table_insert(table: &mut Table, key: &[usize], bucket: ChainItem)
    requires
        key_fits(key@),
    ensures
        table_entries(*final(table)) == table_entries(*old(table)).insert(key@, bucket@),
{
    let stored: smallvec::SmallVec<[lasso::Spur; 4]> =
        key.iter().map(|h| lasso::Spur::try_from_usize(*h).unwrap()).collect();
    table.inner.insert(stored, bucket);
}

/// Whether `bucket` is what `entries` holds for one of its contexts.
pub open spec fn holds_bucket(entries: Map<Seq<usize>, Seq<usize>>, bucket: Seq<usize>) -> bool {
    exists|key: Seq<usize>| #[trigger] entries.contains_key(key) && entries[key] == bucket
}

/// The contents of each of `buckets`, in the same order.
pub open spec fn contents_of(buckets: Seq<&ChainItem>) -> Seq<Seq<usize>> {
    Seq::new(buckets.len(), |i: int| buckets[i]@)
}

/// Collects `hashbrown::HashMap::values` into a vector.
///
/// The order in which a hash map hands out its values is its own affair,
/// so nothing is claimed about it: only that there is one bucket per
/// context, that every bucket handed out is the bucket of a context, and
/// that the bucket of every context is handed out.
#[verifier::external_body]
pub(crate) fn table_values<'a>(table: &'a Table) -> (buckets: Vec<&'a ChainItem>)
    ensures
        buckets@.len() == table_entries(*table).dom().len(),
        forall|i: int|
            0 <= i < buckets@.len() ==> holds_bucket(
                table_entries(*table),
                #[trigger] contents_of(buckets@)[i],
            ),
        forall|key: Seq<usize>| #[trigger]
            table_entries(*table).contains_key(key) ==> contents_of(buckets@).contains(
                table_entries(*table)[key],
            ),
{
    table.inner.values().collect()
}

/// What each pair of vectors stands for: a context and its bucket.
pub open spec fn pairs_of(pairs: Seq<(Vec<usize>, Vec<usize>)>) -> Seq<(Seq<usize>, Seq<usize>)> {
    Seq::new(pairs.len(), |i: int| (pairs[i].0@, pairs[i].1@))
}

/// Walks `hashbrown::HashMap::iter` and copies every context and bucket out.
///
/// Nothing is claimed about the order of the pairs: only that every
/// context of the table comes with its bucket, once.
#[verifier::external_body]
pub(crate) fn table_pairs(table: &Table) -> (pairs: Vec<(Vec<usize>, Vec<usize>)>)
    ensures
        lists(pairs_of(pairs@), table_entries(*table)),
{
    table.inner.iter().map(
        |(key, bucket)| (key.iter().map(|h| h.into_usize()).collect(), bucket.items().clone()),
    ).collect()
}

/// Calls `Clone::clone` of `hashbrown::HashMap`: the copy holds the same
/// buckets under the same contexts.
#[verifier::external_body]
pub(crate) fn table_clone(table: &Table) -> (copy: Table)
    ensures
        table_entries(copy) == table_entries(*table),
{
    Table { inner: table.inner.clone() }
}

} // verus!
