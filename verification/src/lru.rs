//! The bounded store behind the location cache: `lru_cache::LruCache`, keyed
//! by a location's file path.

use lru_cache::LruCache;
use std::collections::hash_map::RandomState;
use std::hash::BuildHasher;
use std::hash::Hash;
use std::sync::Arc;
use vstd::prelude::*;
use crate::saved::SavedLocation;

verus! {

/// `lru_cache::LruCache`, a map that holds a limited number of pairs and
/// lets the least recently used go first.
#[verifier::external_type_specification]
#[verifier::external_body]
#[verifier::reject_recursive_types(K)]
#[verifier::reject_recursive_types(V)]
#[verifier::reject_recursive_types(S)]
pub struct ExLruCache<K: Eq + Hash, V, S: BuildHasher>(LruCache<K, V, S>);

/// The store of built locations.
pub type Store = LruCache<String, Arc<SavedLocation>, RandomState>;

/// A key of the store, and what is stored under it.
pub type Slot = (Seq<char>, SavedLocation);

/// What a store holds: its key-value pairs, the least recently used first.
pub uninterp spec fn store_slots(store: LruCache<String, Arc<SavedLocation>, RandomState>) -> Seq<(Seq<char>, SavedLocation)>;

/// The number of pairs that a store was made to hold at most.
pub uninterp spec fn store_limit(store: LruCache<String, Arc<SavedLocation>, RandomState>) -> nat;

/// Whether `slots` holds a pair with this key.
pub open spec fn has_key(slots: Seq<Slot>, key: Seq<char>) -> bool {
    exists|i: int| 0 <= i < slots.len() && (#[trigger] slots[i]).0 == key
}

/// The slots after the pair at position `at` was used: it is now the most
/// recently used, and the others keep their order.
pub open spec fn touched(slots: Seq<Slot>, at: int) -> Seq<Slot> {
    slots.remove(at).push(slots[at])
}

/// Slots cut down to `limit` pairs by letting the least recently used go.
/// One pair at most is ever too many.
pub open spec fn capped(slots: Seq<Slot>, limit: nat) -> Seq<Slot> {
    if slots.len() > limit {
        slots.subrange(1, slots.len() as int)
    } else {
        slots
    }
}

/// The slots after a pair with a key that was absent has been put in: it is
/// the most recently used, and the least recently used has left if the
/// store was full.
pub open spec fn stored(slots: Seq<Slot>, limit: nat, key: Seq<char>, value: SavedLocation) -> Seq<
    Slot,
> {
    capped(slots.push((key, value)), limit)
}

/// The slots after the pair at position `at` has been given a new value: it
/// is the most recently used, under its old key.
pub open spec fn restored(slots: Seq<Slot>, limit: nat, at: int, value: SavedLocation) -> Seq<
    Slot,
> {
    capped(slots.remove(at).push((slots[at].0, value)), limit)
}

/// Makes an empty store with `LruCache::new`. Trusted: it holds nothing, and
/// its limit is `capacity`.
#[verifier::external_body]
pub(crate) fn store_new(capacity: usize) -> (store: Store)
    ensures
        store_slots(store) == Seq::<Slot>::empty(),
        store_limit(store) == capacity,
{
    LruCache::new(capacity)
}

/// Looks `key` up with `LruCache::get_mut` and hands out a handle to the
/// value found. Trusted: a value comes back exactly when a pair has this
/// key, and it is that pair's value; that pair is afterwards the most
/// recently used while the others keep their order; a miss changes nothing;
/// the limit stays.
#[verifier::external_body]
pub(crate) fn store_get(store: &mut Store, key: &String) -> (found: Option<Arc<SavedLocation>>)
    ensures
        store_limit(*final(store)) == store_limit(*old(store)),
        match found {
            Some(value) => exists|i: int|
                0 <= i < store_slots(*old(store)).len() && (#[trigger] store_slots(
                    *old(store),
                )[i]) == (key@, *value) && store_slots(*final(store)) == touched(
                    store_slots(*old(store)),
                    i,
                ),
            None => !has_key(store_slots(*old(store)), key@) && store_slots(*final(store))
                == store_slots(*old(store)),
        },
{
    match store.get_mut(key) {
        Some(value) => Some(Arc::clone(value)),
        None => None,
    }
}

/// Puts a pair into the store with `LruCache::insert`. Trusted: the pair
/// is afterwards the most recently used, in place of the pair that had its
/// key if there was one; the least recently used pair has left if the store
/// then held more than its limit; the limit stays.
#[verifier::external_body]
pub(crate) fn store_put(store: &mut Store, key: String, value: Arc<SavedLocation>)
    ensures
        store_limit(*final(store)) == store_limit(*old(store)),
        !has_key(store_slots(*old(store)), key@) ==> store_slots(*final(store)) == stored(
            store_slots(*old(store)),
            store_limit(*old(store)),
            key@,
            *value,
        ),
        forall|i: int|
            0 <= i < store_slots(*old(store)).len() && (#[trigger] store_slots(*old(store))[i]).0
                == key@ ==> store_slots(*final(store)) == restored(
                store_slots(*old(store)),
                store_limit(*old(store)),
                i,
                *value,
            ),
{
    store.insert(key, value);
}

/// A second handle to a shared location, made with `Arc::clone`. Trusted:
/// both handles lead to the same location.
#[verifier::external_body]
pub(crate) fn share(handle: &Arc<SavedLocation>) -> (twin: Arc<SavedLocation>)
    ensures
        *twin == **handle,
{
    Arc::clone(handle)
}

} // verus!
