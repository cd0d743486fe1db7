//! The location cache: built locations by file path, bounded, least
//! recently used out first.

use std::sync::Arc;
use vstd::prelude::*;
use crate::location::Location;
use crate::lru::capped;
use crate::lru::restored;
use crate::lru::has_key;
use crate::lru::share;
use crate::lru::store_get;
use crate::lru::store_limit;
use crate::lru::store_new;
use crate::lru::store_put;
use crate::lru::store_slots;
use crate::lru::stored;
use crate::lru::touched;
use crate::lru::Slot;
use crate::lru::Store;
use crate::saved::SavedLocation;

verus! {

/// No data could be had for a location.
#[derive(Debug, Clone, Copy, PartialEq, Eq, Structural)]
pub struct NotFound;

/// The keys of `slots`, in their order.
pub open spec fn keys_of(slots: Seq<Slot>) -> Seq<Seq<char>> {
    slots.map_values(|slot: Slot| slot.0)
}

/// Slots as a cache of at most `limit` locations keeps them: no key twice,
/// and no more pairs than the limit.
pub open spec fn well_kept(slots: Seq<Slot>, limit: nat) -> bool {
    &&& slots.len() <= limit
    &&& forall|i: int, j: int|
        0 <= i < j < slots.len() ==> (#[trigger] slots[i]).0 != (#[trigger] slots[j]).0
}

/// The position of the pair with this key. Meaningful where `has_key` holds.
pub open spec fn slot_of(slots: Seq<Slot>, key: Seq<char>) -> int {
    choose|i: int| 0 <= i < slots.len() && (#[trigger] slots[i]).0 == key
}

/// What a cache of at most `limit` locations holds after it was asked for
/// `key` and the build, where it was needed, gave `built`.
pub open spec fn after_request(
    slots: Seq<Slot>,
    limit: nat,
    key: Seq<char>,
    built: Option<SavedLocation>,
) -> Seq<Slot> {
    if has_key(slots, key) {
        touched(slots, slot_of(slots, key))
    } else {
        match built {
            Some(value) => stored(slots, limit, key, value),
            None => slots,
        }
    }
}

/// What a cache holds after `key` was given the outcome of a build: a
/// failed build changes nothing, a built location takes the place of the
/// one cached under `key` or comes in as a new pair.
pub open spec fn after_insert(
    slots: Seq<Slot>,
    limit: nat,
    key: Seq<char>,
    built: Option<SavedLocation>,
) -> Seq<Slot> {
    match built {
        None => slots,
        Some(value) => if has_key(slots, key) {
            restored(slots, limit, slot_of(slots, key), value)
        } else {
            stored(slots, limit, key, value)
        },
    }
}

/// In well-kept slots a key has one position.
pub proof fn lemma_slot_of(slots: Seq<Slot>, limit: nat, key: Seq<char>, at: int)
    requires
        well_kept(slots, limit),
        0 <= at < slots.len(),
        slots[at].0 == key,
    ensures
        has_key(slots, key),
        slot_of(slots, key) == at,
{
    let found = slot_of(slots, key);
    assert(0 <= found < slots.len() && slots[found].0 == key);
    if found < at {
        assert(slots[found].0 != slots[at].0);
    }
    if at < found {
        assert(slots[at].0 != slots[found].0);
    }
}

/// Using a pair keeps the slots well kept and keeps every key.
pub proof fn lemma_touched_kept(slots: Seq<Slot>, limit: nat, at: int)
    requires
        well_kept(slots, limit),
        0 <= at < slots.len(),
    ensures
        well_kept(touched(slots, at), limit),
        touched(slots, at).len() == slots.len(),
        forall|key: Seq<char>| has_key(touched(slots, at), key) == has_key(slots, key),
{
    let after = touched(slots, at);
    let last = slots.len() - 1;
    assert forall|i: int| 0 <= i < after.len() implies (#[trigger] after[i]) == slots[if i
        == last {
        at
    } else if i < at {
        i
    } else {
        i + 1
    }] by {}
    assert forall|i: int, j: int| 0 <= i < j < after.len() implies (#[trigger] after[i]).0 != (
    #[trigger] after[j]).0 by {
        let from_i = if i < at { i } else { i + 1 };
        let from_j = if j == last { at } else if j < at { j } else { j + 1 };
        assert(after[i] == slots[from_i]);
        assert(after[j] == slots[from_j]);
        if from_i < from_j {
            assert(slots[from_i].0 != slots[from_j].0);
        } else {
            assert(slots[from_j].0 != slots[from_i].0);
        }
    }
    assert forall|key: Seq<char>| has_key(after, key) == has_key(slots, key) by {
        if has_key(slots, key) {
            let i = choose|i: int| 0 <= i < slots.len() && (#[trigger] slots[i]).0 == key;
            let to = if i == at { last } else if i < at { i } else { i - 1 };
            assert(after[to].0 == key);
        }
        if has_key(after, key) {
            let i = choose|i: int| 0 <= i < after.len() && (#[trigger] after[i]).0 == key;
            let from = if i == last { at } else if i < at { i } else { i + 1 };
            assert(slots[from].0 == key);
        }
    }
}

/// Putting a new key in keeps the slots well kept.
pub proof fn lemma_stored_kept(slots: Seq<Slot>, limit: nat, key: Seq<char>, value: SavedLocation)
    requires
        well_kept(slots, limit),
        !has_key(slots, key),
    ensures
        well_kept(stored(slots, limit, key, value), limit),
{
    let grown = slots.push((key, value));
    assert forall|i: int, j: int| 0 <= i < j < grown.len() implies (#[trigger] grown[i]).0 != (
    #[trigger] grown[j]).0 by {
        if j < slots.len() {
            assert(slots[i].0 != slots[j].0);
        } else {
            assert(slots[i].0 != key);
        }
    }
    let after = stored(slots, limit, key, value);
    if grown.len() > limit {
        assert forall|i: int, j: int| 0 <= i < j < after.len() implies (#[trigger] after[i]).0
            != (#[trigger] after[j]).0 by {
            assert(after[i] == grown[i + 1]);
            assert(after[j] == grown[j + 1]);
        }
    }
}

/// Giving a cached key a new value keeps the slots well kept.
pub proof fn lemma_restored_kept(slots: Seq<Slot>, limit: nat, at: int, value: SavedLocation)
    requires
        well_kept(slots, limit),
        0 <= at < slots.len(),
    ensures
        well_kept(restored(slots, limit, at, value), limit),
{
    lemma_touched_kept(slots, limit, at);
    let moved = touched(slots, at);
    let after = restored(slots, limit, at, value);
    assert(after.len() == moved.len());
    assert forall|i: int| 0 <= i < after.len() implies (#[trigger] after[i]).0 == moved[i].0 by {}
    assert forall|i: int, j: int| 0 <= i < j < after.len() implies (#[trigger] after[i]).0 != (
    #[trigger] after[j]).0 by {
        assert(moved[i].0 != moved[j].0);
    }
}

/// A hit makes the pair that was asked for the most recently used and
/// leaves the others in the order they had.
pub proof fn lemma_hit_is_most_recent(slots: Seq<Slot>, limit: nat, key: Seq<char>)
    requires
        well_kept(slots, limit),
        has_key(slots, key),
    ensures
        ({
            let at = slot_of(slots, key);
            let after = after_request(slots, limit, key, None);
            &&& after.len() == slots.len()
            &&& after.last() == slots[at]
            &&& forall|i: int| 0 <= i < at ==> after[i] == slots[i]
            &&& forall|i: int| at <= i < slots.len() - 1 ==> after[i] == slots[i + 1]
        }),
{
}

/// A miss on a full cache lets exactly the least recently used pair go: the
/// pairs after it move up one place and the built location comes last.
pub proof fn lemma_full_cache_evicts_least_recent(
    slots: Seq<Slot>,
    limit: nat,
    key: Seq<char>,
    value: SavedLocation,
)
    requires
        well_kept(slots, limit),
        slots.len() == limit,
        limit > 0,
        !has_key(slots, key),
    ensures
        ({
            let after = after_request(slots, limit, key, Some(value));
            &&& after == slots.subrange(1, slots.len() as int).push((key, value))
            &&& !has_key(after, slots[0].0)
            &&& has_key(after, key)
            &&& forall|i: int| 1 <= i < slots.len() ==> has_key(after, (#[trigger] slots[i]).0)
        }),
{
    let after = after_request(slots, limit, key, Some(value));
    let want = slots.subrange(1, slots.len() as int).push((key, value));
    assert(after =~= want);
    assert(after[after.len() - 1].0 == key);
    assert forall|i: int| 1 <= i < slots.len() implies has_key(after, (#[trigger] slots[i]).0) by {
        assert(after[i - 1] == slots[i]);
    }
    if has_key(after, slots[0].0) {
        let i = choose|i: int| 0 <= i < after.len() && (#[trigger] after[i]).0 == slots[0].0;
        if i < after.len() - 1 {
            assert(after[i] == slots[i + 1]);
            assert(slots[0].0 != slots[i + 1].0);
        } else {
            assert(slots[0].0 == key);
        }
    }
}

/// What a cache holds after one request for each of `pairs` in turn, each a
/// miss whose build gives the pair's location.
pub open spec fn after_builds(slots: Seq<Slot>, limit: nat, pairs: Seq<Slot>) -> Seq<Slot>
    decreases pairs.len(),
{
    if pairs.len() == 0 {
        slots
    } else {
        after_builds(
            after_request(slots, limit, pairs[0].0, Some(pairs[0].1)),
            limit,
            pairs.subrange(1, pairs.len() as int),
        )
    }
}

/// The last `limit` of `all`, or all of them where they are fewer.
pub open spec fn newest(all: Seq<Slot>, limit: nat) -> Seq<Slot> {
    if all.len() > limit {
        all.subrange(all.len() - limit, all.len() as int)
    } else {
        all
    }
}

proof fn lemma_after_builds(slots: Seq<Slot>, limit: nat, pairs: Seq<Slot>)
    requires
        slots.len() <= limit,
        forall|i: int, j: int|
            0 <= i < j < (slots + pairs).len() ==> (#[trigger] (slots + pairs)[i]).0 != (
            #[trigger] (slots + pairs)[j]).0,
    ensures
        after_builds(slots, limit, pairs) == newest(slots + pairs, limit),
    decreases pairs.len(),
{
    let all = slots + pairs;
    if pairs.len() == 0 {
        assert(all =~= slots);
    } else {
        let first = pairs[0];
        let rest = pairs.subrange(1, pairs.len() as int);
        assert(all[slots.len() as int] == first);
        if has_key(slots, first.0) {
            let i = choose|i: int| 0 <= i < slots.len() && (#[trigger] slots[i]).0 == first.0;
            assert(all[i] == slots[i]);
            assert(all[i].0 != all[slots.len() as int].0);
        }
        let next = after_request(slots, limit, first.0, Some(first.1));
        assert(next == capped(slots.push(first), limit));
        let cut: int = if slots.len() + 1 > limit {
            1
        } else {
            0
        };
        assert(next =~= slots.push(first).subrange(cut, slots.len() as int + 1));
        let onward = next + rest;
        assert(onward =~= all.subrange(cut, all.len() as int));
        assert forall|i: int, j: int| 0 <= i < j < onward.len() implies (#[trigger] onward[i]).0
            != (#[trigger] onward[j]).0 by {
            assert(onward[i] == all[i + cut]);
            assert(onward[j] == all[j + cut]);
        }
        lemma_after_builds(next, limit, rest);
        assert(newest(onward, limit) =~= newest(all, limit));
    }
}

/// Building one more location than an empty cache can hold, all under
/// different paths, leaves all of them cached but the first, which was the
/// least recently used, in the order they were built in.
pub proof fn lemma_one_too_many_evicts_first(limit: nat, pairs: Seq<Slot>)
    requires
        pairs.len() == limit + 1,
        forall|i: int, j: int|
            0 <= i < j < pairs.len() ==> (#[trigger] pairs[i]).0 != (#[trigger] pairs[j]).0,
    ensures
        after_builds(Seq::empty(), limit, pairs) == pairs.subrange(1, pairs.len() as int),
{
    let none = Seq::<Slot>::empty();
    assert(none + pairs =~= pairs);
    lemma_after_builds(none, limit, pairs);
}

/// A location is built once: after a request for `key` in a cache that can
/// hold anything at all, the location is cached, so that the next request
/// for it is a hit, whose outcome no build has a part in.
pub proof fn lemma_built_once(
    slots: Seq<Slot>,
    limit: nat,
    key: Seq<char>,
    built: SavedLocation,
    again: Option<SavedLocation>,
)
    requires
        well_kept(slots, limit),
        limit > 0,
    ensures
        ({
            let after = after_request(slots, limit, key, Some(built));
            &&& well_kept(after, limit)
            &&& has_key(after, key)
            &&& after.last().0 == key
            &&& after.last().1 == if has_key(slots, key) {
                slots[slot_of(slots, key)].1
            } else {
                built
            }
            &&& after_request(after, limit, key, again) == after
        }),
{
    let after = after_request(slots, limit, key, Some(built));
    if has_key(slots, key) {
        lemma_touched_kept(slots, limit, slot_of(slots, key));
    } else {
        lemma_stored_kept(slots, limit, key, built);
    }
    let last = after.len() - 1;
    assert(after[last].0 == key);
    lemma_slot_of(after, limit, key, last);
    assert(touched(after, last) =~= after);
}

/// A request succeeded and handed out `value`.
pub open spec fn hands_out(result: Result<Arc<SavedLocation>, NotFound>, value: SavedLocation) -> bool {
    match result {
        Ok(handle) => *handle == value,
        Err(_) => false,
    }
}

/// What is handed out for the outcome of a build: the built location, or
/// `NotFound` for a failed build.
pub open spec fn answers(result: Result<Arc<SavedLocation>, NotFound>, built: Option<SavedLocation>) -> bool {
    match built {
        Some(value) => hands_out(result, value),
        None => result is Err,
    }
}

pub struct LocationCache {
    store: Store,
}

impl LocationCache {
    /// The cached pairs of path and location, the least recently used first.
    pub closed spec fn slots(&self) -> Seq<Slot> {
        store_slots(self.store)
    }

    /// The number of locations that the cache holds at most.
    pub closed spec fn limit(&self) -> nat {
        store_limit(self.store)
    }

    /// The cache holds no path twice and no more locations than its limit.
    pub open spec fn wf(&self) -> bool {
        well_kept(self.slots(), self.limit())
    }

    /// An empty cache for at most `capacity` locations. A capacity of zero
    /// is in order: such a cache never keeps anything.
    pub fn new(capacity: usize) -> (cache: LocationCache)
        ensures
            cache.wf(),
            cache.slots() == Seq::<Slot>::empty(),
            cache.limit() == capacity,
    {
        LocationCache { store: store_new(capacity) }
    }

    /// Whether a location with this path is cached.
    pub open spec fn holds(&self, key: Seq<char>) -> bool {
        has_key(self.slots(), key)
    }

    /// Looks a location up by its path. A location that is found is handed
    /// out and becomes the most recently used; a miss changes nothing.
    pub fn lookup(&mut self, location: &Location) -> (found: Option<Arc<SavedLocation>>)
        requires
            old(self).wf(),
        ensures
            final(self).wf(),
            final(self).limit() == old(self).limit(),
            final(self).slots() == after_request(
                old(self).slots(),
                old(self).limit(),
                location.key(),
                None,
            ),
            match found {
                Some(handle) => old(self).holds(location.key()) && *handle == old(self).slots()[slot_of(
                    old(self).slots(),
                    location.key(),
                )].1,
                None => !old(self).holds(location.key()),
            },
    {
        let ghost before = self.slots();
        let found = store_get(&mut self.store, &location.filepath);
        proof {
            if found is Some {
                let value = *found->Some_0;
                let at = choose|i: int|
                    0 <= i < before.len() && (#[trigger] before[i]) == (location.key(), value)
                        && self.slots() == touched(before, i);
                lemma_slot_of(before, self.limit(), location.key(), at);
                lemma_touched_kept(before, self.limit(), at);
            }
        }
        found
    }

    /// Takes in the outcome of a build for a location. A failed build is
    /// `NotFound` and changes nothing. A built location is handed out and
    /// cached as the most recently used, in place of the one cached under
    /// the same path if there is one; the least recently used location
    /// leaves if the cache was full. A cache of capacity zero hands the
    /// location out and keeps nothing.
    pub fn insert_built(&mut self, location: &Location, built: Option<SavedLocation>) -> (result: Result<
        Arc<SavedLocation>,
        NotFound,
    >)
        requires
            old(self).wf(),
        ensures
            final(self).wf(),
            final(self).limit() == old(self).limit(),
            final(self).slots() == after_insert(
                old(self).slots(),
                old(self).limit(),
                location.key(),
                built,
            ),
            answers(result, built),
    {
        match built {
            None => Err(NotFound),
            Some(value) => {
                let ghost before = self.slots();
                let handle = Arc::new(value);
                let kept = share(&handle);
                store_put(&mut self.store, location.filepath.clone(), kept);
                proof {
                    if has_key(before, location.key()) {
                        let at = slot_of(before, location.key());
                        lemma_restored_kept(before, self.limit(), at, value);
                    } else {
                        lemma_stored_kept(before, self.limit(), location.key(), value);
                    }
                }
                Ok(handle)
            },
        }
    }

    /// Hands out the location cached under the path of `location`, or has
    /// it built and caches it. On a hit the builder is not consulted and
    /// the location becomes the most recently used. On a miss the builder
    /// runs once, and its outcome is taken in as by `insert_built`: a failed build
    /// is `NotFound` and leaves the cache as it was.
    pub fn get_or_build<F: FnOnce(&Location) -> Option<SavedLocation>>(
        &mut self,
        location: &Location,
        builder: F,
    ) -> (result: Result<Arc<SavedLocation>, NotFound>)
        requires
            old(self).wf(),
            !old(self).holds(location.key()) ==> call_requires(builder, (location,)),
        ensures
            final(self).wf(),
            final(self).limit() == old(self).limit(),
            old(self).holds(location.key()) ==> final(self).slots() == after_request(
                old(self).slots(),
                old(self).limit(),
                location.key(),
                None,
            ) && hands_out(
                result,
                old(self).slots()[slot_of(old(self).slots(), location.key())].1,
            ),
            !old(self).holds(location.key()) ==> exists|built: Option<SavedLocation>|
                #![trigger call_ensures(builder, (location,), built)]
                call_ensures(builder, (location,), built) && final(self).slots() == after_request(
                    old(self).slots(),
                    old(self).limit(),
                    location.key(),
                    built,
                ) && answers(result, built),
    {
        match self.lookup(location) {
            Some(handle) => Ok(handle),
            None => {
                let built = builder(location);
                self.insert_built(location, built)
            },
        }
    }
}

} // verus!
