//! A time-boxed cache of normalized datasets.

use vstd::prelude::*;

use crate::models::api::{Model, ModelView};

verus! {

/// The key under which the catalogue's dataset is cached.
pub const CACHE_KEY: &'static str = "polza_models_cache";

/// How long a cached dataset stays fresh: one hour, in milliseconds.
pub const CACHE_DURATION_MS: i64 = 3_600_000;

/// Whether a dataset captured at `timestamp` is still fresh at `now`: its age
/// is less than the cache duration. Instants are milliseconds since the Unix
/// epoch.
pub open spec fn is_fresh_at(timestamp: int, now: int) -> bool {
    now - timestamp < CACHE_DURATION_MS
}

/// A dataset with the instant at which it was captured.
#[derive(Debug)]
pub struct CacheEntry {
    pub records: Vec<Model>,
    /// Milliseconds since the Unix epoch.
    pub timestamp: i64,
}

/// The mathematical content of a cache entry.
pub struct CacheEntryView {
    pub records: Seq<ModelView>,
    pub timestamp: int,
}

impl View for CacheEntry {
    type V = CacheEntryView;

    open spec fn view(&self) -> CacheEntryView {
        CacheEntryView { records: self.records.deep_view(), timestamp: self.timestamp as int }
    }
}

/// Copies a dataset.
pub fn clone_records(records: &[Model]) -> (copy: Vec<Model>)
    ensures
        copy.deep_view() == records.deep_view(),
{
    let mut copy: Vec<Model> = Vec::new();
    let n = records.len();
    let mut i: usize = 0;
    while i < n
        invariant
            n == records@.len(),
            i <= n,
            copy@.len() == i,
            forall|k: int| 0 <= k < i ==> copy@[k]@ == records@[k]@,
        decreases n - i,
    {
        copy.push(records[i].clone());
        i += 1;
    }
    proof {
        assert(copy.deep_view() =~= records.deep_view());
    }
    copy
}

impl CacheEntry {
    /// The entry that holds `records`, captured at `now`.
    pub fn new(records: Vec<Model>, now: i64) -> (entry: CacheEntry)
        ensures
            entry@ == (CacheEntryView { records: records.deep_view(), timestamp: now as int }),
    {
        CacheEntry { records, timestamp: now }
    }

    /// Whether the entry is still fresh at `now`.
    pub fn is_fresh(&self, now: i64) -> (fresh: bool)
        ensures
            fresh == is_fresh_at(self@.timestamp, now as int),
    {
        // The difference of two 64-bit instants fits in 128 bits.
        (now as i128) - (self.timestamp as i128) < (CACHE_DURATION_MS as i128)
    }

    /// The records of the entry if it is still fresh at `now`, and nothing if
    /// it has expired.
    pub fn fresh_records(self, now: i64) -> (records: Option<Vec<Model>>)
        ensures
            records is Some <==> is_fresh_at(self@.timestamp, now as int),
            records matches Some(r) ==> r.deep_view() == self@.records,
    {
        if self.is_fresh(now) {
            Some(self.records)
        } else {
            None
        }
    }
}

/// What a cache answers to a load of `key` at `now`: the records stored under
/// the key if there is an entry and it is fresh, and nothing otherwise.
pub open spec fn load_result(
    entries: Map<Seq<char>, CacheEntryView>,
    key: Seq<char>,
    now: int,
) -> Option<Seq<ModelView>> {
    if entries.contains_key(key) && is_fresh_at(entries[key].timestamp, now) {
        Some(entries[key].records)
    } else {
        None
    }
}

/// A load that follows a store under the same key at the same instant
/// returns the stored records unchanged, and a load once the cache duration
/// has passed returns nothing.
pub proof fn lemma_load_after_store(
    entries: Map<Seq<char>, CacheEntryView>,
    key: Seq<char>,
    records: Seq<ModelView>,
    stored_at: int,
    now: int,
)
    ensures
        load_result(
            entries.insert(key, CacheEntryView { records, timestamp: stored_at }),
            key,
            stored_at,
        ) == Some(records),
        now >= stored_at + CACHE_DURATION_MS ==> load_result(
            entries.insert(key, CacheEntryView { records, timestamp: stored_at }),
            key,
            now,
        ) is None,
{
}

/// Clearing a key leaves nothing to load under it, and clearing it again
/// changes nothing.
pub proof fn lemma_clear_is_idempotent(
    entries: Map<Seq<char>, CacheEntryView>,
    key: Seq<char>,
    now: int,
)
    ensures
        load_result(entries.remove(key), key, now) is None,
        entries.remove(key).remove(key) == entries.remove(key),
{
    assert(entries.remove(key).remove(key) =~= entries.remove(key));
}

struct Slot {
    key: String,
    entry: CacheEntry,
}

spec fn keys_are_distinct(slots: Seq<Slot>) -> bool {
    forall|i: int, j: int| 0 <= i < j < slots.len() ==> slots[i].key@ != slots[j].key@
}

spec fn holds(slots: Seq<Slot>, key: Seq<char>) -> bool {
    exists|i: int| 0 <= i < slots.len() && slots[i].key@ == key
}

spec fn position(slots: Seq<Slot>, key: Seq<char>) -> int {
    choose|i: int| 0 <= i < slots.len() && slots[i].key@ == key
}

spec fn entries_of(slots: Seq<Slot>) -> Map<Seq<char>, CacheEntryView> {
    Map::new(|k: Seq<char>| holds(slots, k), |k: Seq<char>| slots[position(slots, k)].entry@)
}

/// With distinct keys, the slot of a key is the only place where the key
/// stands.
proof fn lemma_slot_lookup(slots: Seq<Slot>, i: int)
    requires
        keys_are_distinct(slots),
        0 <= i < slots.len(),
    ensures
        holds(slots, slots[i].key@),
        position(slots, slots[i].key@) == i,
        entries_of(slots).contains_key(slots[i].key@),
        entries_of(slots)[slots[i].key@] == slots[i].entry@,
{
    let p = position(slots, slots[i].key@);
    if p < i {
        assert(slots[p].key@ != slots[i].key@);
    } else if i < p {
        assert(slots[i].key@ != slots[p].key@);
    }
}

/// The position of the slot of `key`, if there is one.
fn find_slot(slots: &Vec<Slot>, key: &str) -> (at: Option<usize>)
    ensures
        at matches Some(i) ==> i < slots@.len() && slots@[i as int].key@ == key@,
        at is None ==> !holds(slots@, key@),
{
    let wanted = key.to_owned();
    let n = slots.len();
    let mut i: usize = 0;
    while i < n
        invariant
            n == slots@.len(),
            wanted@ == key@,
            i <= n,
            forall|k: int| 0 <= k < i ==> slots@[k].key@ != key@,
        decreases n - i,
    {
        if slots[i].key == wanted {
            return Some(i);
        }
        i += 1;
    }
    None
}

/// A store of cache entries by key. Each key has at most one entry; storing
/// under a key replaces the entry wholesale.
pub struct Cache {
    slots: Vec<Slot>,
}

impl View for Cache {
    type V = Map<Seq<char>, CacheEntryView>;

    closed spec fn view(&self) -> Map<Seq<char>, CacheEntryView> {
        entries_of(self.slots@)
    }
}

impl Cache {
    #[verifier::type_invariant]
    closed spec fn well_formed(self) -> bool {
        keys_are_distinct(self.slots@)
    }

    /// An empty cache.
    pub fn new() -> (cache: Cache)
        ensures
            cache@ == Map::<Seq<char>, CacheEntryView>::empty(),
    {
        let cache = Cache { slots: Vec::new() };
        assert(cache@ =~= Map::<Seq<char>, CacheEntryView>::empty());
        cache
    }

    /// Stores `records` under `key` with the capture instant `now`, in place
    /// of whatever was stored under the key.
    pub fn store(&mut self, key: &str, records: Vec<Model>, now: i64)
        ensures
            final(self)@ == old(self)@.insert(
                key@,
                CacheEntryView { records: records.deep_view(), timestamp: now as int },
            ),
    {
        proof {
            use_type_invariant(&*self);
        }
        let entry = CacheEntry::new(records, now);
        let ghost added = entry@;
        let mut slots: Vec<Slot> = Vec::new();
        core::mem::swap(&mut slots, &mut self.slots);
        let ghost before = slots@;
        match find_slot(&slots, key) {
            Some(i) => {
                let replaced = slots.remove(i);
                slots.insert(i, Slot { key: replaced.key, entry });
                proof {
                    let after = slots@;
                    assert(after.len() == before.len());
                    assert forall|k: int| 0 <= k < after.len() implies #[trigger] after[k].key@
                        == before[k].key@ && (k != i ==> after[k].entry@ == before[k].entry@) by {
                        if k < i {
                            assert(after[k] == before[k]);
                        } else if k > i {
                            assert(after[k] == before[k]);
                        }
                    }
                    assert(after[i as int].entry@ == added);
                    assert(keys_are_distinct(after));
                    lemma_slot_lookup(after, i as int);
                    assert forall|k: Seq<char>| #[trigger]
                        entries_of(after).contains_key(k) == entries_of(before).insert(
                            key@,
                            added,
                        ).contains_key(k) by {
                        if holds(before, k) {
                            let p = position(before, k);
                            assert(after[p].key@ == k);
                        }
                        if holds(after, k) {
                            let p = position(after, k);
                            assert(before[p].key@ == k);
                        }
                    }
                    assert forall|k: Seq<char>| #[trigger]
                        entries_of(after).contains_key(k) implies entries_of(after)[k]
                        == entries_of(before).insert(key@, added)[k] by {
                        let p = position(after, k);
                        lemma_slot_lookup(after, p);
                        lemma_slot_lookup(before, p);
                    }
                    assert(entries_of(after) =~= entries_of(before).insert(key@, added));
                }
            },
            None => {
                slots.push(Slot { key: key.to_owned(), entry });
                proof {
                    let after = slots@;
                    let last = before.len() as int;
                    assert(keys_are_distinct(after)) by {
                        assert forall|a: int, b: int| 0 <= a < b < after.len() implies after[a].key@
                            != after[b].key@ by {
                            assert(after[a] == before[a]);
                            if b < last {
                                assert(after[b] == before[b]);
                            }
                        }
                    }
                    lemma_slot_lookup(after, last);
                    assert forall|k: Seq<char>| #[trigger]
                        entries_of(after).contains_key(k) == entries_of(before).insert(
                            key@,
                            added,
                        ).contains_key(k) by {
                        if holds(before, k) {
                            let p = position(before, k);
                            assert(after[p].key@ == k);
                        }
                        if holds(after, k) {
                            let p = position(after, k);
                            if p < last {
                                assert(before[p].key@ == k);
                            }
                        }
                    }
                    assert forall|k: Seq<char>| #[trigger]
                        entries_of(after).contains_key(k) implies entries_of(after)[k]
                        == entries_of(before).insert(key@, added)[k] by {
                        let p = position(after, k);
                        lemma_slot_lookup(after, p);
                        if p < last {
                            assert(after[p] == before[p]);
                            lemma_slot_lookup(before, p);
                        }
                    }
                    assert(entries_of(after) =~= entries_of(before).insert(key@, added));
                }
            },
        }
        self.slots = slots;
    }

    /// Loads the records stored under `key` if there is an entry that is
    /// still fresh at `now`. A missing entry and an expired one both give
    /// nothing.
    pub fn load(&self, key: &str, now: i64) -> (found: Option<Vec<Model>>)
        ensures
            found.deep_view() == load_result(self@, key@, now as int),
    {
        proof {
            use_type_invariant(self);
        }
        match find_slot(&self.slots, key) {
            Some(i) => {
                proof {
                    lemma_slot_lookup(self.slots@, i as int);
                }
                let slot = &self.slots[i];
                if slot.entry.is_fresh(now) {
                    Some(clone_records(slot.entry.records.as_slice()))
                } else {
                    None
                }
            },
            None => None,
        }
    }

    /// Deletes the entry under `key`, if there is one.
    pub fn clear(&mut self, key: &str)
        ensures
            final(self)@ == old(self)@.remove(key@),
    {
        proof {
            use_type_invariant(&*self);
        }
        let mut slots: Vec<Slot> = Vec::new();
        core::mem::swap(&mut slots, &mut self.slots);
        let ghost before = slots@;
        match find_slot(&slots, key) {
            Some(i) => {
                slots.remove(i);
                proof {
                    let after = slots@;
                    assert forall|k: int| 0 <= k < after.len() implies #[trigger] after[k] == (if k
                        < i {
                        before[k]
                    } else {
                        before[k + 1]
                    }) by {}
                    assert(keys_are_distinct(after)) by {
                        assert forall|a: int, b: int| 0 <= a < b < after.len() implies after[a].key@
                            != after[b].key@ by {
                            let first = if a < i { a } else { a + 1 };
                            let second = if b < i { b } else { b + 1 };
                            assert(after[a] == before[first] && after[b] == before[second]);
                        }
                    }
                    lemma_slot_lookup(before, i as int);
                    assert forall|k: Seq<char>| #[trigger]
                        entries_of(after).contains_key(k) == entries_of(before).remove(
                            key@,
                        ).contains_key(k) by {
                        if holds(before, k) && k != key@ {
                            let p = position(before, k);
                            if p < i {
                                assert(after[p].key@ == k);
                            } else {
                                assert(after[p - 1].key@ == k);
                            }
                        }
                        if holds(after, k) {
                            let p = position(after, k);
                            let origin = if p < i { p } else { p + 1 };
                            assert(before[origin].key@ == k);
                            lemma_slot_lookup(before, origin);
                        }
                    }
                    assert forall|k: Seq<char>| #[trigger]
                        entries_of(after).contains_key(k) implies entries_of(after)[k]
                        == entries_of(before).remove(key@)[k] by {
                        let p = position(after, k);
                        let origin = if p < i { p } else { p + 1 };
                        lemma_slot_lookup(after, p);
                        assert(after[p] == before[origin]);
                        lemma_slot_lookup(before, origin);
                    }
                    assert(entries_of(after) =~= entries_of(before).remove(key@));
                }
            },
            None => {
                proof {
                    assert(entries_of(before) =~= entries_of(before).remove(key@));
                }
            },
        }
        self.slots = slots;
    }
}

/// Loads the catalogue's dataset from the cache, if it is there and fresh.
pub fn load_from_cache(cache: &Cache, now: i64) -> (found: Option<Vec<Model>>)
    ensures
        found.deep_view() == load_result(cache@, CACHE_KEY@, now as int),
{
    cache.load(CACHE_KEY, now)
}

/// Saves the catalogue's dataset to the cache, captured at `now`.
pub fn save_to_cache(cache: &mut Cache, models: &[Model], now: i64)
    ensures
        final(cache)@ == old(cache)@.insert(
            CACHE_KEY@,
            CacheEntryView { records: models.deep_view(), timestamp: now as int },
        ),
{
    cache.store(CACHE_KEY, clone_records(models), now);
}

/// Clears the catalogue's dataset from the cache, so that the next load finds
/// nothing.
pub fn clear_cache(cache: &mut Cache)
    ensures
        final(cache)@ == old(cache)@.remove(CACHE_KEY@),
{
    cache.clear(CACHE_KEY);
}

} // verus!
