//! What holds of the provider records, record by record.

use crate::dht::id::ContentKey;
use crate::dht::storage;
use crate::dht::storage::ProviderRecord;
use crate::time::{Duration, Instant};
use vstd::prelude::*;

verus! {

/// A record is stored under a key.
pub open spec fn is_stored(
    storage: Map<ContentKey, Seq<ProviderRecord>>,
    key: ContentKey,
    record: ProviderRecord,
) -> bool {
    storage.contains_key(key) && storage[key].contains(record)
}

/// Some of the records, in their order.
pub open spec fn is_part(some: Seq<ProviderRecord>, all: Seq<ProviderRecord>) -> bool {
    exists|places: Seq<int>| #[trigger] stand_at(some, all, places)
}

/// Some of the records stand at these places, one behind the other.
pub open spec fn stand_at(
    some: Seq<ProviderRecord>,
    all: Seq<ProviderRecord>,
    places: Seq<int>,
) -> bool {
    &&& places.len() == some.len()
    &&& forall|i: int|
        0 <= i < places.len() ==> 0 <= #[trigger] places[i] < all.len() && some[i] == all[places[i]]
    &&& forall|i: int, j: int| 0 <= i < j < places.len() ==> places[i] < places[j]
}

/// The records that pass a test are just that: those of them that do, in their order.
proof fn lemma_filter(records: Seq<ProviderRecord>, pred: spec_fn(ProviderRecord) -> bool)
    ensures
        forall|r: ProviderRecord| #[trigger]
            records.filter(pred).contains(r) <==> records.contains(r) && pred(r),
        is_part(records.filter(pred), records),
    decreases records.len(),
{
    reveal(Seq::filter);
    let out = records.filter(pred);
    if records.len() == 0 {
        assert(stand_at(out, records, Seq::<int>::empty()));
    } else {
        let rest = records.drop_last();
        let last = records.last();
        let out_rest = rest.filter(pred);
        lemma_filter(rest, pred);
        assert(forall|i: int| 0 <= i < rest.len() ==> rest[i] == records[i]);
        assert forall|r: ProviderRecord| #[trigger] out.contains(r) <==> records.contains(r) && pred(
            r,
        ) by {
            if out_rest.contains(r) {
                let i = choose|i: int| 0 <= i < out_rest.len() && out_rest[i] == r;
                assert(out[i] == r);
                let j = choose|j: int| 0 <= j < rest.len() && rest[j] == r;
                assert(records[j] == r);
            }
            if records.contains(r) && pred(r) {
                let j = choose|j: int| 0 <= j < records.len() && records[j] == r;
                if j < rest.len() {
                    assert(rest[j] == r);
                    assert(out_rest.contains(r));
                } else {
                    assert(out[out.len() - 1] == r);
                }
            }
            if out.contains(r) {
                let i = choose|i: int| 0 <= i < out.len() && out[i] == r;
                if i < out_rest.len() {
                    assert(out_rest[i] == r);
                    assert(out_rest.contains(r));
                } else {
                    assert(records[records.len() - 1] == r);
                }
            }
        }
        let places = choose|places: Seq<int>| #[trigger] stand_at(out_rest, rest, places);
        if pred(last) {
            let more = places.push(records.len() - 1);
            assert forall|i: int| 0 <= i < more.len() implies 0 <= #[trigger] more[i] < records.len()
                && out[i] == records[more[i]] by {
                if i < places.len() {
                    assert(0 <= places[i] < rest.len());
                }
            }
            assert forall|i: int, j: int| 0 <= i < j < more.len() implies more[i] < more[j] by {
                assert(0 <= places[i] < rest.len());
                if j < places.len() {
                    assert(places[i] < places[j]);
                }
            }
            assert(stand_at(out, records, more));
        } else {
            assert forall|i: int| 0 <= i < places.len() implies 0 <= #[trigger] places[i]
                < records.len() && out[i] == records[places[i]] by {
                assert(0 <= places[i] < rest.len());
            }
            assert(stand_at(out, records, places));
        }
    }
}

/// The records of a key are all different.
proof fn lemma_distinct(records: Seq<ProviderRecord>)
    requires
        forall|i: int, j: int|
            0 <= i < j < records.len() ==> records[i].provider_id != records[j].provider_id,
    ensures
        records.no_duplicates(),
{
    assert forall|i: int, j: int| 0 <= i < j < records.len() implies records[i] != records[j] by {
        assert(records[i].provider_id != records[j].provider_id);
    }
}

/// Some of different records are different.
proof fn lemma_part_distinct(some: Seq<ProviderRecord>, all: Seq<ProviderRecord>)
    requires
        is_part(some, all),
        all.no_duplicates(),
    ensures
        some.no_duplicates(),
{
    let places = choose|places: Seq<int>| #[trigger] stand_at(some, all, places);
    assert forall|i: int, j: int| 0 <= i < j < some.len() implies some[i] != some[j] by {
        assert(places[i] < places[j]);
        assert(0 <= places[i] < all.len() && 0 <= places[j] < all.len());
        assert(all[places[i]] != all[places[j]]);
    }
}

/// The records that expire soon under some keys are just those stored under one of them that are in
/// force and expire by then, each once.
pub(crate) proof fn lemma_all_expiring(
    keys: Seq<ContentKey>,
    storage: Map<ContentKey, Seq<ProviderRecord>>,
    now: Instant,
    cutoff: Instant,
)
    requires
        storage::wf_map(storage),
        keys.no_duplicates(),
        forall|i: int| 0 <= i < keys.len() ==> storage.contains_key(#[trigger] keys[i]),
    ensures
        storage::all_expiring(keys, storage, now, cutoff).no_duplicates(),
        forall|r: ProviderRecord| #[trigger]
            storage::all_expiring(keys, storage, now, cutoff).contains(r) <==> (exists|i: int|
                0 <= i < keys.len() && is_stored(storage, #[trigger] keys[i], r))
                && r.expires_at.nanos > now.nanos && r.expires_at.nanos <= cutoff.nanos,
    decreases keys.len(),
{
    let all = storage::all_expiring(keys, storage, now, cutoff);
    if keys.len() > 0 {
        let rest = keys.drop_last();
        let key = keys.last();
        assert(forall|i: int| 0 <= i < rest.len() ==> rest[i] == keys[i]);
        assert(keys[keys.len() - 1] == key);
        lemma_all_expiring(rest, storage, now, cutoff);
        let earlier = storage::all_expiring(rest, storage, now, cutoff);
        let records = storage[key];
        let pred = |r: ProviderRecord|
            storage::is_live(r, now) && r.expires_at.nanos <= cutoff.nanos;
        let own = records.filter(pred);
        lemma_filter(records, pred);
        assert(storage::wf_records(records, key));
        lemma_distinct(records);
        lemma_part_distinct(own, records);
        assert(all == earlier + own);
        assert forall|r: ProviderRecord| #[trigger] all.contains(r) <==> (exists|i: int|
            0 <= i < keys.len() && is_stored(storage, #[trigger] keys[i], r)) && r.expires_at.nanos
            > now.nanos && r.expires_at.nanos <= cutoff.nanos by {
            if earlier.contains(r) {
                let w = choose|w: int| 0 <= w < earlier.len() && earlier[w] == r;
                assert(all[w] == r);
                let i = choose|i: int| 0 <= i < rest.len() && is_stored(
                    storage,
                    #[trigger] rest[i],
                    r,
                );
                assert(is_stored(storage, keys[i], r));
            }
            if own.contains(r) {
                let w = choose|w: int| 0 <= w < own.len() && own[w] == r;
                assert(all[earlier.len() + w] == r);
                assert(is_stored(storage, keys[keys.len() - 1], r));
            }
            if all.contains(r) {
                let w = choose|w: int| 0 <= w < all.len() && all[w] == r;
                if w < earlier.len() {
                    assert(earlier[w] == r);
                    assert(earlier.contains(r));
                } else {
                    assert(own[w - earlier.len()] == r);
                    assert(own.contains(r));
                }
            }
            if (exists|i: int| 0 <= i < keys.len() && is_stored(storage, #[trigger] keys[i], r))
                && r.expires_at.nanos > now.nanos && r.expires_at.nanos <= cutoff.nanos {
                let i = choose|i: int| 0 <= i < keys.len() && is_stored(
                    storage,
                    #[trigger] keys[i],
                    r,
                );
                if i < rest.len() {
                    assert(is_stored(storage, rest[i], r));
                    assert(earlier.contains(r));
                } else {
                    assert(own.contains(r));
                }
            }
        }
        assert forall|i: int, j: int| 0 <= i < j < all.len() implies all[i] != all[j] by {
            if j < earlier.len() {
                assert(earlier[i] != earlier[j]);
            } else if i >= earlier.len() {
                assert(own[i - earlier.len()] != own[j - earlier.len()]);
            } else {
                let mine = own[j - earlier.len()];
                assert(own.contains(mine));
                assert(records.contains(mine));
                let p = choose|p: int| 0 <= p < records.len() && records[p] == mine;
                assert(records[p].key == key);
                assert(earlier.contains(earlier[i]));
                let w = choose|w: int| 0 <= w < rest.len() && is_stored(
                    storage,
                    #[trigger] rest[w],
                    earlier[i],
                );
                assert(storage::wf_records(storage[rest[w]], rest[w]));
                let q = choose|q: int|
                    0 <= q < storage[rest[w]].len() && storage[rest[w]][q] == earlier[i];
                assert(storage[rest[w]][q].key == rest[w]);
                assert(keys[w] != keys[keys.len() - 1]);
            }
        }
    }
}

/// The records that are to be republished are just those that are stored under some key, are in
/// force, and expire at the end of the window or before: each of them, and each once.
pub proof fn law_expiring_records_are_exact(
    storage: Map<ContentKey, Seq<ProviderRecord>>,
    keys: Seq<ContentKey>,
    now: Instant,
    window: Duration,
    found: Seq<ProviderRecord>,
)
    requires
        storage::wf_map(storage),
        storage::is_key_order(keys, storage),
        now.nanos + window.nanos <= u128::MAX,
        found == storage::all_expiring(
            keys,
            storage,
            now,
            Instant { nanos: (now.nanos + window.nanos) as u128 },
        ),
    ensures
        found.no_duplicates(),
        forall|r: ProviderRecord| #[trigger]
            found.contains(r) <==> (exists|key: ContentKey| #[trigger] is_stored(storage, key, r))
                && now.nanos < r.expires_at.nanos <= now.nanos + window.nanos,
{
    let cutoff = Instant { nanos: (now.nanos + window.nanos) as u128 };
    assert forall|i: int| 0 <= i < keys.len() implies storage.contains_key(#[trigger] keys[i]) by {
        assert(keys.to_set().contains(keys[i]));
    }
    lemma_all_expiring(keys, storage, now, cutoff);
    assert forall|r: ProviderRecord| #[trigger] found.contains(r) <==> (exists|key: ContentKey|
        #[trigger]
        is_stored(storage, key, r)) && now.nanos < r.expires_at.nanos <= now.nanos
        + window.nanos by {
        if exists|key: ContentKey| #[trigger] is_stored(storage, key, r) {
            let key = choose|key: ContentKey| #[trigger] is_stored(storage, key, r);
            assert(keys.to_set().contains(key));
            let i = choose|i: int| 0 <= i < keys.len() && keys[i] == key;
            assert(is_stored(storage, keys[i], r));
        }
        if exists|i: int| 0 <= i < keys.len() && is_stored(storage, #[trigger] keys[i], r) {
            let i = choose|i: int| 0 <= i < keys.len() && is_stored(storage, #[trigger] keys[i], r);
            assert(is_stored(storage, keys[i], r));
        }
    }
}

/// Pruning keeps just the records that are in force, under their keys and in their order, and no key
/// without one.
pub proof fn law_pruning_keeps_the_records_in_force(
    storage: Map<ContentKey, Seq<ProviderRecord>>,
    now: Instant,
    key: ContentKey,
)
    ensures
        forall|r: ProviderRecord| #[trigger]
            is_stored(storage::pruned(storage, now), key, r) <==> is_stored(storage, key, r)
                && r.expires_at.nanos > now.nanos,
        storage::pruned(storage, now).contains_key(key) ==> storage::pruned(storage, now)[key].len()
            > 0 && is_part(storage::pruned(storage, now)[key], storage[key]),
        storage::pruned(storage, now).contains_key(key) <==> exists|r: ProviderRecord| #[trigger]
            is_stored(storage::pruned(storage, now), key, r),
{
    let left = storage::pruned(storage, now);
    let pred = |r: ProviderRecord| storage::is_live(r, now);
    lemma_filter(storage[key], pred);
    let some = storage[key].filter(pred);
    assert forall|r: ProviderRecord| #[trigger] is_stored(left, key, r) <==> is_stored(
        storage,
        key,
        r,
    ) && r.expires_at.nanos > now.nanos by {
        if is_stored(storage, key, r) && r.expires_at.nanos > now.nanos {
            assert(some.contains(r));
            let i = choose|i: int| 0 <= i < some.len() && some[i] == r;
            assert(some.len() > 0);
        }
        if is_stored(left, key, r) {
            assert(some.contains(r));
        }
    }
    if left.contains_key(key) {
        assert(left[key].contains(left[key][0]));
        assert(is_stored(left, key, left[key][0]));
    }
}

/// The records that are counted as expired are just those that are stored and not in force.
pub proof fn law_expired_records_are_the_others(
    storage: Map<ContentKey, Seq<ProviderRecord>>,
    now: Instant,
    key: ContentKey,
)
    ensures
        forall|r: ProviderRecord| #[trigger]
            is_stored(storage::all_expired(storage, now), key, r) <==> is_stored(storage, key, r)
                && r.expires_at.nanos <= now.nanos,
        storage::expired_count(storage, now) == storage::record_count(
            storage::all_expired(storage, now),
        ),
{
    let gone = storage::all_expired(storage, now);
    let pred = |r: ProviderRecord| !storage::is_live(r, now);
    lemma_filter(storage[key], pred);
    assert forall|r: ProviderRecord| #[trigger] is_stored(gone, key, r) <==> is_stored(
        storage,
        key,
        r,
    ) && r.expires_at.nanos <= now.nanos by {
        if is_stored(storage, key, r) {
            assert(storage[key].filter(pred).contains(r) <==> storage[key].contains(r) && pred(r));
        }
    }
}

/// A lookup gives just the records that are stored under the key and in force, in their order, each
/// once. The storage keeps these under the key, and everything under the other keys.
pub proof fn law_lookup_gives_the_records_in_force(
    storage: Map<ContentKey, Seq<ProviderRecord>>,
    key: ContentKey,
    now: Instant,
    other: ContentKey,
)
    requires
        storage::wf_map(storage),
    ensures
        ({
            let found = storage::live(storage::records_of(storage, key), now);
            let after = storage::after_lookup(storage, key, now);
            &&& found.no_duplicates()
            &&& is_part(found, storage::records_of(storage, key))
            &&& forall|r: ProviderRecord| #[trigger]
                found.contains(r) <==> is_stored(storage, key, r) && r.expires_at.nanos > now.nanos
            &&& forall|r: ProviderRecord| #[trigger]
                is_stored(after, key, r) <==> is_stored(storage, key, r) && r.expires_at.nanos
                    > now.nanos
            &&& after.contains_key(key) ==> after[key] == found && found.len() > 0
            &&& other != key ==> after.contains_key(other) == storage.contains_key(other)
                && after[other] == storage[other]
        }),
{
    let records = storage::records_of(storage, key);
    let found = storage::live(records, now);
    let after = storage::after_lookup(storage, key, now);
    lemma_filter(records, |r: ProviderRecord| storage::is_live(r, now));
    if storage.contains_key(key) {
        assert(storage::wf_records(records, key));
    }
    lemma_distinct(records);
    lemma_part_distinct(found, records);
    assert forall|r: ProviderRecord| #[trigger] is_stored(after, key, r) <==> is_stored(
        storage,
        key,
        r,
    ) && r.expires_at.nanos > now.nanos by {
        if is_stored(storage, key, r) && r.expires_at.nanos > now.nanos {
            assert(found.contains(r));
        }
    }
}

/// To store a record puts it last under its key. Of the records that were there go those of the same
/// provider and those that have expired; the others stay, in their order, and so does everything
/// under the other keys.
pub proof fn law_storing_renews_one_record(
    storage: Map<ContentKey, Seq<ProviderRecord>>,
    record: ProviderRecord,
    now: Instant,
    other: ContentKey,
)
    requires
        storage::wf_map(storage),
    ensures
        ({
            let after = storage::upserted(storage, record, now);
            let records = after[record.key];
            &&& after.contains_key(record.key)
            &&& records.len() > 0
            &&& records.last() == record
            &&& is_part(records.drop_last(), storage::records_of(storage, record.key))
            &&& records.no_duplicates()
            &&& forall|r: ProviderRecord| #[trigger]
                is_stored(after, record.key, r) <==> r == record || (is_stored(
                    storage,
                    record.key,
                    r,
                ) && r.expires_at.nanos > now.nanos && r.provider_id != record.provider_id)
            &&& other != record.key ==> after.contains_key(other) == storage.contains_key(other)
                && after[other] == storage[other]
        }),
{
    let before = storage::records_of(storage, record.key);
    let pred = |r: ProviderRecord|
        storage::is_live(r, now) && r.provider_id != record.provider_id;
    let kept = before.filter(pred);
    lemma_filter(before, pred);
    let after = storage::upserted(storage, record, now);
    let records = after[record.key];
    assert(records == kept.push(record));
    assert(records.drop_last() =~= kept);
    if storage.contains_key(record.key) {
        assert(storage::wf_records(before, record.key));
    }
    lemma_distinct(before);
    lemma_part_distinct(kept, before);
    assert forall|i: int, j: int| 0 <= i < j < records.len() implies records[i] != records[j] by {
        if j < kept.len() {
            assert(kept[i] != kept[j]);
        } else {
            assert(kept.contains(kept[i]));
        }
    }
    assert forall|r: ProviderRecord| #[trigger] is_stored(after, record.key, r) <==> r == record || (
    is_stored(storage, record.key, r) && r.expires_at.nanos > now.nanos && r.provider_id
        != record.provider_id) by {
        if kept.contains(r) {
            let i = choose|i: int| 0 <= i < kept.len() && kept[i] == r;
            assert(records[i] == r);
        }
        if r == record {
            assert(records[kept.len() as int] == r);
        }
        if records.contains(r) && r != record {
            let i = choose|i: int| 0 <= i < records.len() && records[i] == r;
            assert(kept[i] == r);
            assert(kept.contains(r));
        }
        if is_stored(storage, record.key, r) && r.expires_at.nanos > now.nanos && r.provider_id
            != record.provider_id {
            assert(kept.contains(r));
        }
    }
}

/// Records are counted one by one: there are none in an empty storage, and a key that is added adds
/// as many as it has.
pub proof fn law_records_are_counted(
    storage: Map<ContentKey, Seq<ProviderRecord>>,
    key: ContentKey,
    records: Seq<ProviderRecord>,
)
    requires
        storage.dom().finite(),
        !storage.contains_key(key),
    ensures
        storage::record_count(Map::<ContentKey, Seq<ProviderRecord>>::empty()) == 0,
        storage::record_count(storage.insert(key, records)) == storage::record_count(storage)
            + records.len(),
{
    let more = storage.insert(key, records);
    storage::lemma_record_count(more, key);
    assert(more.remove(key) =~= storage);
}

/// What may happen to a storage: one event for each of its operations.
pub enum StorageEvent {
    /// A record was stored.
    Stored { record: ProviderRecord, now: Instant },
    /// The records of a key were looked up.
    LookedUp { key: ContentKey, now: Instant },
    /// Expired records were dropped, be it by pruning or when expiring ones were asked for.
    Pruned { now: Instant },
}

impl StorageEvent {
    /// The moment of the event.
    pub open spec fn moment(self) -> Instant {
        match self {
            StorageEvent::Stored { now, .. } => now,
            StorageEvent::LookedUp { now, .. } => now,
            StorageEvent::Pruned { now } => now,
        }
    }

    /// The storage once the event has happened.
    pub open spec fn after(
        self,
        storage: Map<ContentKey, Seq<ProviderRecord>>,
    ) -> Map<ContentKey, Seq<ProviderRecord>> {
        match self {
            StorageEvent::Stored { record, now } => storage::upserted(storage, record, now),
            StorageEvent::LookedUp { key, now } => storage::after_lookup(storage, key, now),
            StorageEvent::Pruned { now } => storage::pruned(storage, now),
        }
    }

    /// Whether the event stores a record of this provider under this key.
    pub open spec fn renews(self, record: ProviderRecord) -> bool {
        self matches StorageEvent::Stored { record: other, .. } && other.key == record.key
            && other.provider_id == record.provider_id
    }
}

/// The storage after all of some events, in order.
pub open spec fn after_all(
    storage: Map<ContentKey, Seq<ProviderRecord>>,
    events: Seq<StorageEvent>,
) -> Map<ContentKey, Seq<ProviderRecord>>
    decreases events.len(),
{
    if events.len() == 0 {
        storage
    } else {
        events.last().after(after_all(storage, events.drop_last()))
    }
}

/// What one event does to one record: a record that was there stays, unless it has expired by then or
/// the event renews it, and none comes but one that is stored.
proof fn lemma_event(
    storage: Map<ContentKey, Seq<ProviderRecord>>,
    event: StorageEvent,
    record: ProviderRecord,
)
    requires
        storage::wf_map(storage),
    ensures
        storage::wf_map(event.after(storage)),
        is_stored(storage, record.key, record) && !event.renews(record)
            && record.expires_at.nanos > event.moment().nanos ==> is_stored(
            event.after(storage),
            record.key,
            record,
        ),
        is_stored(event.after(storage), record.key, record) ==> is_stored(
            storage,
            record.key,
            record,
        ) || (event matches StorageEvent::Stored { record: other, .. } && other == record),
{
    match event {
        StorageEvent::Stored { record: new, now } => {
            law_storing_renews_one_record(storage, new, now, record.key);
            storage::lemma_upserted_wf(storage, new, now);
        },
        StorageEvent::LookedUp { key, now } => {
            law_lookup_gives_the_records_in_force(storage, key, now, record.key);
            storage::lemma_after_lookup_wf(storage, key, now);
        },
        StorageEvent::Pruned { now } => {
            law_pruning_keeps_the_records_in_force(storage, now, record.key);
            storage::lemma_pruned_wf(storage, now);
        },
    }
}

/// A record lasts: whatever is stored, looked up and pruned afterwards, it is still there, and is
/// found by a lookup, until it expires or its provider renews it.
pub proof fn law_record_lasts_until_it_expires(
    storage: Map<ContentKey, Seq<ProviderRecord>>,
    record: ProviderRecord,
    stored: Instant,
    events: Seq<StorageEvent>,
    later: Instant,
)
    requires
        storage::wf_map(storage),
        forall|i: int|
            0 <= i < events.len() ==> !(#[trigger] events[i]).renews(record)
                && events[i].moment().nanos < record.expires_at.nanos,
        later.nanos < record.expires_at.nanos,
    ensures
        ({
            let after = after_all(storage::upserted(storage, record, stored), events);
            &&& storage::wf_map(after)
            &&& is_stored(after, record.key, record)
            &&& storage::live(storage::records_of(after, record.key), later).contains(record)
        }),
    decreases events.len(),
{
    let start = storage::upserted(storage, record, stored);
    let after = after_all(start, events);
    if events.len() == 0 {
        law_storing_renews_one_record(storage, record, stored, record.key);
        storage::lemma_upserted_wf(storage, record, stored);
    } else {
        let rest = events.drop_last();
        assert forall|i: int| 0 <= i < rest.len() implies !(#[trigger] rest[i]).renews(record)
            && rest[i].moment().nanos < record.expires_at.nanos by {
            assert(rest[i] == events[i]);
        }
        law_record_lasts_until_it_expires(storage, record, stored, rest, later);
        assert(events.last() == events[events.len() - 1]);
        lemma_event(after_all(start, rest), events.last(), record);
    }
    law_lookup_gives_the_records_in_force(after, record.key, later, record.key);
}

/// A storage that was empty holds only what was stored: every record in it is that of some event.
pub proof fn law_only_stored_records_are_held(events: Seq<StorageEvent>, record: ProviderRecord)
    requires
        is_stored(
            after_all(Map::<ContentKey, Seq<ProviderRecord>>::empty(), events),
            record.key,
            record,
        ),
    ensures
        exists|i: int|
            0 <= i < events.len() && ((#[trigger] events[i]) matches StorageEvent::Stored {
                record: other,
                ..
            } && other == record),
    decreases events.len(),
{
    let none = Map::<ContentKey, Seq<ProviderRecord>>::empty();
    if events.len() > 0 {
        let rest = events.drop_last();
        lemma_all_wf(none, rest, record);
        lemma_event(after_all(none, rest), events.last(), record);
        assert(events.last() == events[events.len() - 1]);
        if is_stored(after_all(none, rest), record.key, record) {
            law_only_stored_records_are_held(rest, record);
            let i = choose|i: int|
                0 <= i < rest.len() && ((#[trigger] rest[i]) matches StorageEvent::Stored {
                    record: other,
                    ..
                } && other == record);
            assert(events[i] == rest[i]);
        }
    }
}

/// Whatever happens to a storage, it stays well-formed.
proof fn lemma_all_wf(
    storage: Map<ContentKey, Seq<ProviderRecord>>,
    events: Seq<StorageEvent>,
    record: ProviderRecord,
)
    requires
        storage::wf_map(storage),
    ensures
        storage::wf_map(after_all(storage, events)),
    decreases events.len(),
{
    if events.len() > 0 {
        lemma_all_wf(storage, events.drop_last(), record);
        lemma_event(after_all(storage, events.drop_last()), events.last(), record);
    }
}

} // verus!
