//! Which nodes provide which content, and until when.

use crate::dht::id::{ContentKey, NodeId};
use crate::dht::storage_laws;
use crate::time::{Duration, Instant};
use vstd::prelude::*;

verus! {

/// A node that provides content, until the record expires.
#[derive(Debug, Clone, Copy, PartialEq, Eq)]
pub struct ProviderRecord {
    pub key: ContentKey,
    pub provider_id: NodeId,
    pub expires_at: Instant,
}

/// The records of one key.
#[derive(Debug, Clone)]
struct Entry {
    key: ContentKey,
    providers: Vec<ProviderRecord>,
}

/// The provider records of a node. The storage has no clock: the moments at which records expire
/// and those that it is handed are to be of one clock.
#[derive(Debug, Clone)]
pub struct DhtStorage {
    entries: Vec<Entry>,
}

/// Whether a record is still in force.
pub open spec fn is_live(record: ProviderRecord, now: Instant) -> bool {
    record.expires_at.nanos > now.nanos
}

/// The records that are still in force.
pub open spec fn live(records: Seq<ProviderRecord>, now: Instant) -> Seq<ProviderRecord> {
    records.filter(|r: ProviderRecord| is_live(r, now))
}

/// The records that are still in force, and not for long.
pub open spec fn expiring(records: Seq<ProviderRecord>, now: Instant, cutoff: Instant) -> Seq<
    ProviderRecord,
> {
    records.filter(|r: ProviderRecord| is_live(r, now) && r.expires_at.nanos <= cutoff.nanos)
}

/// The records that stay when a provider's record is renewed.
pub open spec fn kept(records: Seq<ProviderRecord>, renewed: NodeId, now: Instant) -> Seq<
    ProviderRecord,
> {
    records.filter(|r: ProviderRecord| is_live(r, now) && r.provider_id != renewed)
}

/// The records of a key, or none.
pub open spec fn records_of(
    storage: Map<ContentKey, Seq<ProviderRecord>>,
    key: ContentKey,
) -> Seq<ProviderRecord> {
    if storage.contains_key(key) {
        storage[key]
    } else {
        Seq::empty()
    }
}

/// The storage without the records that have expired, and without the keys that have none left.
pub open spec fn pruned(storage: Map<ContentKey, Seq<ProviderRecord>>, now: Instant) -> Map<
    ContentKey,
    Seq<ProviderRecord>,
> {
    Map::new(
        |key: ContentKey| storage.contains_key(key) && live(storage[key], now).len() > 0,
        |key: ContentKey| live(storage[key], now),
    )
}

/// The storage once a record was stored: an earlier record of the provider under the same key is
/// gone, and so are the records under that key that have expired.
pub open spec fn upserted(
    storage: Map<ContentKey, Seq<ProviderRecord>>,
    record: ProviderRecord,
    now: Instant,
) -> Map<ContentKey, Seq<ProviderRecord>> {
    storage.insert(
        record.key,
        kept(records_of(storage, record.key), record.provider_id, now).push(record),
    )
}

/// The storage once the records of a key were looked up: those that have expired are gone.
pub open spec fn after_lookup(
    storage: Map<ContentKey, Seq<ProviderRecord>>,
    key: ContentKey,
    now: Instant,
) -> Map<ContentKey, Seq<ProviderRecord>> {
    let found = live(records_of(storage, key), now);
    if found.len() > 0 {
        storage.insert(key, found)
    } else {
        storage.remove(key)
    }
}

/// How many records there are under all keys together.
pub open spec fn record_count(storage: Map<ContentKey, Seq<ProviderRecord>>) -> nat
    decreases storage.dom().len(),
    when storage.dom().finite()
{
    if storage.dom().len() == 0 {
        0
    } else {
        let key = storage.dom().choose();
        storage[key].len() + record_count(storage.remove(key))
    }
}

/// The records that have expired.
pub open spec fn expired(records: Seq<ProviderRecord>, now: Instant) -> Seq<ProviderRecord> {
    records.filter(|r: ProviderRecord| !is_live(r, now))
}

/// The records that have expired, under each key of the storage.
pub open spec fn all_expired(storage: Map<ContentKey, Seq<ProviderRecord>>, now: Instant) -> Map<
    ContentKey,
    Seq<ProviderRecord>,
> {
    Map::new(
        |key: ContentKey| storage.contains_key(key),
        |key: ContentKey| expired(storage[key], now),
    )
}

/// How many records have expired, under all keys together.
pub open spec fn expired_count(
    storage: Map<ContentKey, Seq<ProviderRecord>>,
    now: Instant,
) -> nat {
    record_count(all_expired(storage, now))
}

/// `keys` are the keys of the storage, in some order.
pub open spec fn is_key_order(
    keys: Seq<ContentKey>,
    storage: Map<ContentKey, Seq<ProviderRecord>>,
) -> bool {
    keys.no_duplicates() && keys.to_set() == storage.dom()
}

/// The records that expire soon, key by key.
pub open spec fn all_expiring(
    keys: Seq<ContentKey>,
    storage: Map<ContentKey, Seq<ProviderRecord>>,
    now: Instant,
    cutoff: Instant,
) -> Seq<ProviderRecord>
    decreases keys.len(),
{
    if keys.len() == 0 {
        Seq::empty()
    } else {
        all_expiring(keys.drop_last(), storage, now, cutoff) + expiring(
            storage[keys.last()],
            now,
            cutoff,
        )
    }
}

/// Every key has a record, the records stand under their own key, and no provider has two
/// records under one key.
pub open spec fn wf_map(storage: Map<ContentKey, Seq<ProviderRecord>>) -> bool {
    &&& storage.dom().finite()
    &&& forall|key: ContentKey| #[trigger]
        storage.contains_key(key) ==> wf_records(storage[key], key)
}

/// There are records, all under one key, and none by the same provider as another.
pub open spec fn wf_records(records: Seq<ProviderRecord>, key: ContentKey) -> bool {
    &&& records.len() > 0
    &&& forall|i: int| 0 <= i < records.len() ==> (#[trigger] records[i]).key == key
    &&& forall|i: int, j: int|
        0 <= i < j < records.len() ==> records[i].provider_id != records[j].provider_id
}

/// Pairs of keys and records, as a map.
spec fn as_map(pairs: Seq<(ContentKey, Seq<ProviderRecord>)>) -> Map<
    ContentKey,
    Seq<ProviderRecord>,
>
    decreases pairs.len(),
{
    if pairs.len() == 0 {
        Map::empty()
    } else {
        as_map(pairs.drop_last()).insert(pairs.last().0, pairs.last().1)
    }
}

/// The keys of the pairs, in order.
spec fn keys_of(pairs: Seq<(ContentKey, Seq<ProviderRecord>)>) -> Seq<ContentKey> {
    pairs.map_values(|p: (ContentKey, Seq<ProviderRecord>)| p.0)
}

/// The pairs without the records that have expired, and without the keys that have none left.
spec fn prune_pairs(pairs: Seq<(ContentKey, Seq<ProviderRecord>)>, now: Instant) -> Seq<
    (ContentKey, Seq<ProviderRecord>),
>
    decreases pairs.len(),
{
    if pairs.len() == 0 {
        Seq::empty()
    } else {
        let rest = prune_pairs(pairs.drop_last(), now);
        let left = live(pairs.last().1, now);
        if left.len() > 0 {
            rest.push((pairs.last().0, left))
        } else {
            rest
        }
    }
}

/// The pairs with only the records that have expired.
spec fn expired_pairs(pairs: Seq<(ContentKey, Seq<ProviderRecord>)>, now: Instant) -> Seq<
    (ContentKey, Seq<ProviderRecord>),
> {
    pairs.map_values(|p: (ContentKey, Seq<ProviderRecord>)| (p.0, expired(p.1, now)))
}

/// How many records the pairs hold together.
spec fn pair_count(pairs: Seq<(ContentKey, Seq<ProviderRecord>)>) -> nat
    decreases pairs.len(),
{
    if pairs.len() == 0 {
        0
    } else {
        pair_count(pairs.drop_last()) + pairs.last().1.len()
    }
}

/// Each key of pairs with distinct keys leads to its own records.
proof fn lemma_as_map(pairs: Seq<(ContentKey, Seq<ProviderRecord>)>)
    requires
        keys_of(pairs).no_duplicates(),
    ensures
        as_map(pairs).dom() == keys_of(pairs).to_set(),
        as_map(pairs).dom().finite(),
        as_map(pairs).dom().len() == pairs.len(),
        forall|i: int|
            0 <= i < pairs.len() ==> as_map(pairs).contains_key((#[trigger] pairs[i]).0) && as_map(
                pairs,
            )[pairs[i].0] == pairs[i].1,
    decreases pairs.len(),
{
    let keys = keys_of(pairs);
    keys.unique_seq_to_set();
    vstd::seq_lib::seq_to_set_is_finite(keys);
    if pairs.len() > 0 {
        let rest = pairs.drop_last();
        assert(keys_of(rest) =~= keys.drop_last());
        lemma_as_map(rest);
        assert forall|i: int| 0 <= i < pairs.len() implies as_map(pairs).contains_key(
            (#[trigger] pairs[i]).0,
        ) && as_map(pairs)[pairs[i].0] == pairs[i].1 by {
            assert(keys[i] == pairs[i].0);
            if i < rest.len() {
                assert(rest[i] == pairs[i]);
                assert(keys[i] != keys[pairs.len() - 1]);
            }
        }
        assert forall|key: ContentKey| as_map(pairs).dom().contains(key)
            <==> keys.to_set().contains(key) by {
            if keys_of(rest).contains(key) {
                let i = choose|i: int| 0 <= i < rest.len() && keys_of(rest)[i] == key;
                assert(keys[i] == key);
            }
            if keys.contains(key) {
                let i = choose|i: int| 0 <= i < pairs.len() && keys[i] == key;
                if i < rest.len() {
                    assert(keys_of(rest)[i] == key);
                }
            }
            assert(keys[pairs.len() - 1] == pairs.last().0);
        }
    }
    assert(as_map(pairs).dom() =~= keys.to_set());
}

/// A key leads nowhere in pairs without it, and one that leads somewhere is among them.
proof fn lemma_key_index(pairs: Seq<(ContentKey, Seq<ProviderRecord>)>, key: ContentKey) -> (i: int)
    requires
        keys_of(pairs).no_duplicates(),
        as_map(pairs).contains_key(key),
    ensures
        0 <= i < pairs.len(),
        pairs[i].0 == key,
        as_map(pairs)[key] == pairs[i].1,
{
    lemma_as_map(pairs);
    assert(keys_of(pairs).contains(key));
    choose|i: int| 0 <= i < pairs.len() && keys_of(pairs)[i] == key
}

/// Any key may be taken out first when the records are counted.
pub(crate) proof fn lemma_record_count(storage: Map<ContentKey, Seq<ProviderRecord>>, key: ContentKey)
    requires
        storage.dom().finite(),
        storage.contains_key(key),
    ensures
        record_count(storage) == storage[key].len() + record_count(storage.remove(key)),
    decreases storage.dom().len(),
{
    let first = storage.dom().choose();
    assert(storage.dom().contains(key));
    assert(storage.dom().contains(first));
    if first != key {
        lemma_record_count(storage.remove(first), key);
        lemma_record_count(storage.remove(key), first);
        assert(storage.remove(first).remove(key) =~= storage.remove(key).remove(first));
    }
}

/// The records of pairs with distinct keys are those of their map.
proof fn lemma_pair_count(pairs: Seq<(ContentKey, Seq<ProviderRecord>)>)
    requires
        keys_of(pairs).no_duplicates(),
    ensures
        record_count(as_map(pairs)) == pair_count(pairs),
    decreases pairs.len(),
{
    lemma_as_map(pairs);
    if pairs.len() > 0 {
        let rest = pairs.drop_last();
        let key = pairs.last().0;
        assert(keys_of(rest) =~= keys_of(pairs).drop_last());
        lemma_pair_count(rest);
        lemma_as_map(rest);
        if as_map(rest).contains_key(key) {
            let i = lemma_key_index(rest, key);
            assert(keys_of(pairs)[i] == keys_of(pairs)[pairs.len() - 1]);
        }
        assert(as_map(pairs).remove(key) =~= as_map(rest));
        lemma_record_count(as_map(pairs), key);
    }
}

/// Pruned pairs have distinct keys and give the pruned map.
proof fn lemma_prune_pairs(pairs: Seq<(ContentKey, Seq<ProviderRecord>)>, now: Instant)
    requires
        keys_of(pairs).no_duplicates(),
    ensures
        keys_of(prune_pairs(pairs, now)).no_duplicates(),
        as_map(prune_pairs(pairs, now)) == pruned(as_map(pairs), now),
    decreases pairs.len(),
{
    let out = prune_pairs(pairs, now);
    if pairs.len() > 0 {
        let rest = pairs.drop_last();
        let key = pairs.last().0;
        let left = live(pairs.last().1, now);
        assert(keys_of(rest) =~= keys_of(pairs).drop_last());
        lemma_prune_pairs(rest, now);
        let out_rest = prune_pairs(rest, now);
        lemma_as_map(pairs);
        lemma_as_map(rest);
        if as_map(rest).contains_key(key) {
            let i = lemma_key_index(rest, key);
            assert(keys_of(pairs)[i] == keys_of(pairs)[pairs.len() - 1]);
        }
        if left.len() > 0 {
            lemma_as_map(out_rest);
            assert(!as_map(out_rest).contains_key(key));
            assert forall|i: int, j: int| 0 <= i < j < out.len() implies keys_of(out)[i] != keys_of(
                out,
            )[j] by {
                assert(keys_of(out_rest)[i] == out_rest[i].0);
                if j < out_rest.len() {
                    assert(keys_of(out_rest)[i] != keys_of(out_rest)[j]);
                } else {
                    assert(as_map(out_rest).contains_key(out_rest[i].0));
                }
            }
            assert(out.drop_last() =~= out_rest);
        }
        assert(as_map(out) =~= pruned(as_map(pairs), now));
    } else {
        assert(as_map(out) =~= pruned(as_map(pairs), now));
    }
}

/// The expired records of pairs are those of their map.
proof fn lemma_expired_pairs(pairs: Seq<(ContentKey, Seq<ProviderRecord>)>, now: Instant)
    requires
        keys_of(pairs).no_duplicates(),
    ensures
        pair_count(expired_pairs(pairs, now)) == expired_count(as_map(pairs), now),
{
    let out = expired_pairs(pairs, now);
    assert(keys_of(out) =~= keys_of(pairs));
    lemma_pair_count(out);
    lemma_as_map(pairs);
    lemma_as_map(out);
    let all = all_expired(as_map(pairs), now);
    assert forall|key: ContentKey| #[trigger] as_map(out).contains_key(key) implies as_map(out)[key]
        == all[key] by {
        let i = lemma_key_index(out, key);
        assert(pairs[i].0 == key);
        assert(as_map(pairs)[pairs[i].0] == pairs[i].1);
    }
    assert(as_map(out) =~= all);
}

/// Every record is either in force or expired.
proof fn lemma_live_or_expired(records: Seq<ProviderRecord>, now: Instant)
    ensures
        records.len() == live(records, now).len() + expired(records, now).len(),
        expired(live(records, now), now).len() == 0,
    decreases records.len(),
{
    reveal(Seq::filter);
    if records.len() > 0 {
        let rest = records.drop_last();
        lemma_live_or_expired(rest, now);
        if is_live(records.last(), now) {
            assert(live(records, now).drop_last() =~= live(rest, now));
        }
    }
}

/// The records that pruning leaves and those that have expired are all the records.
proof fn lemma_pruned_count(storage: Map<ContentKey, Seq<ProviderRecord>>, now: Instant)
    requires
        storage.dom().finite(),
    ensures
        record_count(storage) == record_count(pruned(storage, now)) + expired_count(storage, now),
    decreases storage.dom().len(),
{
    let left = pruned(storage, now);
    let gone = all_expired(storage, now);
    assert(left.dom().subset_of(storage.dom()));
    assert(gone.dom() =~= storage.dom());
    if storage.dom().len() == 0 {
        assert(storage.dom() =~= Set::empty());
        assert(left.dom() =~= Set::empty());
    } else {
        let key = storage.dom().choose();
        assert(storage.dom().contains(key));
        let rest = storage.remove(key);
        lemma_pruned_count(rest, now);
        lemma_record_count(storage, key);
        lemma_record_count(gone, key);
        assert(gone.remove(key) =~= all_expired(rest, now));
        lemma_live_or_expired(storage[key], now);
        assert(left.remove(key) =~= pruned(rest, now));
        if left.contains_key(key) {
            lemma_record_count(left, key);
        } else {
            assert(left.remove(key) =~= left);
        }
    }
}

/// Where no key has a record there are no records.
proof fn lemma_no_records(storage: Map<ContentKey, Seq<ProviderRecord>>)
    requires
        storage.dom().finite(),
        forall|key: ContentKey| #[trigger] storage.contains_key(key) ==> storage[key].len() == 0,
    ensures
        record_count(storage) == 0,
    decreases storage.dom().len(),
{
    if storage.dom().len() > 0 {
        let key = storage.dom().choose();
        assert(storage.dom().contains(key));
        assert(storage.contains_key(key));
        lemma_no_records(storage.remove(key));
    }
}

/// Records that pass a test keep what every record has, and their order.
proof fn lemma_filtered_wf(
    records: Seq<ProviderRecord>,
    key: ContentKey,
    pred: spec_fn(ProviderRecord) -> bool,
)
    requires
        records.len() > 0 ==> wf_records(records, key),
    ensures
        records.filter(pred).len() > 0 ==> wf_records(records.filter(pred), key),
        forall|r: ProviderRecord| #[trigger]
            records.filter(pred).contains(r) ==> records.contains(r) && pred(r),
    decreases records.len(),
{
    reveal(Seq::filter);
    let out = records.filter(pred);
    if records.len() > 0 {
        let rest = records.drop_last();
        lemma_filtered_wf(rest, key, pred);
        let out_rest = rest.filter(pred);
        assert forall|r: ProviderRecord| #[trigger] out.contains(r) implies records.contains(r)
            && pred(r) by {
            let i = choose|i: int| 0 <= i < out.len() && out[i] == r;
            if i < out_rest.len() {
                assert(out_rest[i] == r);
                assert(out_rest.contains(r));
                let j = choose|j: int| 0 <= j < rest.len() && rest[j] == r;
                assert(records[j] == r);
            } else {
                assert(records[records.len() - 1] == r);
            }
        }
        assert forall|i: int, j: int| 0 <= i < j < out.len() implies out[i].provider_id
            != out[j].provider_id by {
            if j < out_rest.len() {
                assert(out_rest[i].provider_id != out_rest[j].provider_id);
            } else {
                assert(out_rest.contains(out_rest[i]));
                let w = choose|w: int| 0 <= w < rest.len() && rest[w] == out_rest[i];
                assert(records[w].provider_id != records[records.len() - 1].provider_id);
            }
        }
        assert forall|i: int| 0 <= i < out.len() implies (#[trigger] out[i]).key == key by {
            assert(out.contains(out[i]));
            let w = choose|w: int| 0 <= w < records.len() && records[w] == out[i];
            assert(records[w].key == key);
        }
    }
}

/// To store a record keeps a storage well-formed.
pub(crate) proof fn lemma_upserted_wf(
    storage: Map<ContentKey, Seq<ProviderRecord>>,
    record: ProviderRecord,
    now: Instant,
)
    requires
        wf_map(storage),
    ensures
        wf_map(upserted(storage, record, now)),
{
    let before = records_of(storage, record.key);
    let pred = |r: ProviderRecord| is_live(r, now) && r.provider_id != record.provider_id;
    let left = before.filter(pred);
    let records = left.push(record);
    lemma_filtered_wf(before, record.key, pred);
    assert forall|i: int, j: int| 0 <= i < j < records.len() implies records[i].provider_id
        != records[j].provider_id by {
        if j < left.len() {
            assert(left[i].provider_id != left[j].provider_id);
        } else {
            assert(left.contains(left[i]));
        }
    }
    assert forall|i: int| 0 <= i < records.len() implies (#[trigger] records[i]).key
        == record.key by {
        if i < left.len() {
            assert(left[i].key == record.key);
        }
    }
    assert(wf_records(records, record.key));
}

/// A lookup keeps a storage well-formed.
pub(crate) proof fn lemma_after_lookup_wf(
    storage: Map<ContentKey, Seq<ProviderRecord>>,
    key: ContentKey,
    now: Instant,
)
    requires
        wf_map(storage),
    ensures
        wf_map(after_lookup(storage, key, now)),
{
    lemma_filtered_wf(records_of(storage, key), key, |r: ProviderRecord| is_live(r, now));
}

/// Pruning keeps a storage well-formed.
pub(crate) proof fn lemma_pruned_wf(storage: Map<ContentKey, Seq<ProviderRecord>>, now: Instant)
    requires
        wf_map(storage),
    ensures
        wf_map(pruned(storage, now)),
{
    assert(pruned(storage, now).dom().subset_of(storage.dom()));
    assert forall|key: ContentKey| #[trigger]
        pruned(storage, now).contains_key(key) implies wf_records(
        pruned(storage, now)[key],
        key,
    ) by {
        assert(storage.contains_key(key));
        lemma_filtered_wf(storage[key], key, |r: ProviderRecord| is_live(r, now));
    }
}

/// The records that are still in force.
fn live_records(records: &Vec<ProviderRecord>, now: Instant) -> (out: Vec<ProviderRecord>)
    ensures
        out@ == live(records@, now),
{
    let ghost pred = |r: ProviderRecord| is_live(r, now);
    let mut out: Vec<ProviderRecord> = Vec::new();
    let len: usize = records.len();
    let mut i: usize = 0;
    proof {
        reveal(Seq::filter);
    }
    while i < len
        invariant
            i <= len,
            len == records@.len(),
            pred == |r: ProviderRecord| is_live(r, now),
            out@ == records@.take(i as int).filter(pred),
        decreases len - i,
    {
        proof {
            reveal(Seq::filter);
            assert(records@.take(i + 1).drop_last() =~= records@.take(i as int));
        }
        let record = records[i];
        if record.expires_at.nanos > now.nanos {
            out.push(record);
        }
        i = i + 1;
    }
    assert(records@.take(i as int) =~= records@);
    out
}

impl View for DhtStorage {
    type V = Map<ContentKey, Seq<ProviderRecord>>;

    closed spec fn view(&self) -> Map<ContentKey, Seq<ProviderRecord>> {
        as_map(self.pairs())
    }
}

impl DhtStorage {
    /// The entries as pairs of keys and records.
    spec fn pairs(&self) -> Seq<(ContentKey, Seq<ProviderRecord>)> {
        self.entries@.map_values(|e: Entry| (e.key, e.providers@))
    }

    /// The storage is well-formed, and no two entries have one key.
    pub closed spec fn wf(&self) -> bool {
        &&& keys_of(self.pairs()).no_duplicates()
        &&& wf_map(self@)
    }

    /// What a well-formed storage holds.
    pub proof fn lemma_wf(&self)
        requires
            self.wf(),
        ensures
            wf_map(self@),
    {
    }

    /// An empty storage.
    pub fn new() -> (storage: DhtStorage)
        ensures
            storage.wf(),
            storage@ == Map::<ContentKey, Seq<ProviderRecord>>::empty(),
    {
        let storage = DhtStorage { entries: Vec::new() };
        assert(storage.pairs().len() == 0);
        storage
    }

    /// Where the entry of a key stands.
    fn find(&self, key: &ContentKey) -> (at: Option<usize>)
        requires
            self.wf(),
        ensures
            at is Some <==> self@.contains_key(*key),
            at matches Some(i) ==> i < self.entries@.len() && self.entries@[i as int].key == *key
                && self@[*key] == self.entries@[i as int].providers@,
    {
        proof {
            lemma_as_map(self.pairs());
        }
        let len: usize = self.entries.len();
        let mut i: usize = 0;
        while i < len
            invariant
                i <= len,
                len == self.entries@.len(),
                self.wf(),
                forall|j: int| 0 <= j < i ==> (#[trigger] self.entries@[j]).key != *key,
            decreases len - i,
        {
            if self.entries[i].key == *key {
                proof {
                    lemma_as_map(self.pairs());
                    assert(self.pairs()[i as int].0 == *key);
                }
                return Some(i);
            }
            i = i + 1;
        }
        proof {
            if self@.contains_key(*key) {
                let j = lemma_key_index(self.pairs(), *key);
                assert(self.entries@[j].key == *key);
            }
        }
        None
    }

    /// Gives a key these records: an entry that it has is changed, else one is added.
    fn put(&mut self, key: ContentKey, providers: Vec<ProviderRecord>)
        requires
            old(self).wf(),
            wf_records(providers@, key),
        ensures
            final(self).wf(),
            final(self)@ == old(self)@.insert(key, providers@),
    {
        proof {
            lemma_as_map(self.pairs());
        }
        match self.find(&key) {
            Some(at) => {
                let ghost before = self.pairs();
                let ghost records = providers@;
                self.entries[at].providers = providers;
                proof {
                    assert(self.pairs() =~= before.update(at as int, (key, records)));
                    assert(keys_of(self.pairs()) =~= keys_of(before));
                    lemma_as_map(before);
                    lemma_as_map(self.pairs());
                    assert forall|k: ContentKey| #[trigger]
                        self@.contains_key(k) implies self@[k] == old(self)@.insert(
                        key,
                        records,
                    )[k] by {
                        let i = lemma_key_index(self.pairs(), k);
                        assert(keys_of(before)[i] == k);
                        assert(before[i].0 == k);
                        if i != at {
                            assert(keys_of(before)[i] != keys_of(before)[at as int]);
                        }
                    }
                    assert(self@ =~= old(self)@.insert(key, records));
                }
            },
            None => {
                let ghost before = self.pairs();
                let ghost records = providers@;
                self.entries.push(Entry { key, providers });
                proof {
                    assert(self.pairs() =~= before.push((key, records)));
                    assert(self.pairs().drop_last() =~= before);
                    assert forall|i: int, j: int| 0 <= i < j < self.pairs().len() implies keys_of(
                        self.pairs(),
                    )[i] != keys_of(self.pairs())[j] by {
                        assert(keys_of(before)[i] == before[i].0);
                        if j < before.len() {
                            assert(keys_of(before)[i] != keys_of(before)[j]);
                        } else {
                            assert(as_map(before).contains_key(before[i].0));
                        }
                    }
                }
            },
        }
    }

    /// Renews the record of a provider: an earlier record of it under the same key goes, and so
    /// do the records under that key that have expired.
    pub fn upsert_provider(&mut self, record: ProviderRecord, now: Instant)
        requires
            old(self).wf(),
        ensures
            final(self).wf(),
            final(self)@ == old(self)@.insert(
                record.key,
                kept(records_of(old(self)@, record.key), record.provider_id, now).push(record),
            ),
            final(self)@ == upserted(old(self)@, record, now),
            forall|key: ContentKey, r: ProviderRecord| #[trigger]
                storage_laws::is_stored(final(self)@, key, r) <==> if key == record.key {
                    r == record || (storage_laws::is_stored(old(self)@, key, r)
                        && r.expires_at.nanos > now.nanos && r.provider_id != record.provider_id)
                } else {
                    storage_laws::is_stored(old(self)@, key, r)
                },
    {
        let ghost start = self@;
        let ghost before = records_of(self@, record.key);
        let ghost pred = |r: ProviderRecord| is_live(r, now) && r.provider_id != record.provider_id;
        let mut providers: Vec<ProviderRecord> = Vec::new();
        proof {
            reveal(Seq::filter);
            self.lemma_wf();
            lemma_filtered_wf(before, record.key, pred);
        }
        if let Some(at) = self.find(&record.key) {
            let records = &self.entries[at].providers;
            let len: usize = records.len();
            let mut i: usize = 0;
            while i < len
                invariant
                    i <= len,
                    len == records@.len(),
                    pred == |r: ProviderRecord|
                        is_live(r, now) && r.provider_id != record.provider_id,
                    providers@ == records@.take(i as int).filter(pred),
                decreases len - i,
            {
                proof {
                    reveal(Seq::filter);
                    assert(records@.take(i + 1).drop_last() =~= records@.take(i as int));
                }
                let other = records[i];
                if other.expires_at.nanos > now.nanos && other.provider_id != record.provider_id {
                    providers.push(other);
                }
                i = i + 1;
            }
            assert(records@.take(i as int) =~= records@);
        }
        let ghost left = providers@;
        assert(left == before.filter(pred));
        providers.push(record);
        proof {
            assert forall|i: int, j: int| 0 <= i < j < providers@.len() implies providers@[i].provider_id
                != providers@[j].provider_id by {
                assert(left.contains(left[i]));
            }
        }
        self.put(record.key, providers);
        proof {
            assert forall|key: ContentKey, r: ProviderRecord| #[trigger]
                storage_laws::is_stored(self@, key, r) <==> if key == record.key {
                    r == record || (storage_laws::is_stored(start, key, r) && r.expires_at.nanos
                        > now.nanos && r.provider_id != record.provider_id)
                } else {
                    storage_laws::is_stored(start, key, r)
                } by {
                storage_laws::law_storing_renews_one_record(start, record, now, key);
            }
        }
    }

    /// The records of a key that are in force. Those that have expired are dropped.
    pub fn providers_for(&mut self, key: ContentKey, now: Instant) -> (providers: Vec<
        ProviderRecord,
    >)
        requires
            old(self).wf(),
        ensures
            final(self).wf(),
            providers@ == live(records_of(old(self)@, key), now),
            final(self)@ == if providers@.len() > 0 {
                old(self)@.insert(key, providers@)
            } else {
                old(self)@.remove(key)
            },
            final(self)@ == after_lookup(old(self)@, key, now),
            providers@.no_duplicates(),
            forall|r: ProviderRecord| #[trigger]
                providers@.contains(r) <==> storage_laws::is_stored(old(self)@, key, r)
                    && r.expires_at.nanos > now.nanos,
    {
        proof {
            storage_laws::law_lookup_gives_the_records_in_force(self@, key, now, key);
            reveal(Seq::filter);
            self.lemma_wf();
            lemma_as_map(self.pairs());
        }
        match self.find(&key) {
            None => {
                assert(self@.remove(key) =~= self@);
                Vec::new()
            },
            Some(at) => {
                let out = live_records(&self.entries[at].providers, now);
                let ghost before = self.pairs();
                if out.len() == 0 {
                    self.entries.remove(at);
                    proof {
                        lemma_removed(before, at as int);
                        assert(self.pairs() =~= before.remove(at as int));
                        assert(self@.dom().subset_of(old(self)@.dom()));
                    }
                } else {
                    let copy = live_records(&self.entries[at].providers, now);
                    proof {
                        lemma_filtered_wf(self@[key], key, |r: ProviderRecord| is_live(r, now));
                    }
                    self.put(key, copy);
                }
                out
            },
        }
    }

    /// Drops the records that have expired. Returns how many, which has to fit the result.
    pub fn prune_expired(&mut self, now: Instant) -> (removed: usize)
        requires
            old(self).wf(),
            expired_count(old(self)@, now) <= usize::MAX,
        ensures
            final(self).wf(),
            final(self)@ == pruned(old(self)@, now),
            removed == expired_count(old(self)@, now),
            removed == record_count(old(self)@) - record_count(final(self)@),
            forall|key: ContentKey, r: ProviderRecord| #[trigger]
                storage_laws::is_stored(final(self)@, key, r) <==> storage_laws::is_stored(
                    old(self)@,
                    key,
                    r,
                ) && r.expires_at.nanos > now.nanos,
    {
        proof {
            lemma_pruned_records(self@, now);
        }
        let ghost pairs = self.pairs();
        let ghost gone = expired_pairs(pairs, now);
        let mut left: Vec<Entry> = Vec::new();
        let mut removed: usize = 0;
        let len: usize = self.entries.len();
        let mut i: usize = 0;
        proof {
            lemma_expired_pairs(pairs, now);
            lemma_prune_pairs(pairs, now);
            lemma_pruned_wf(self@, now);
            lemma_as_map(pairs);
            lemma_pruned_count(self@, now);
        }
        while i < len
            invariant
                i <= len,
                len == self.entries@.len(),
                pairs == self.pairs(),
                gone == expired_pairs(pairs, now),
                pair_count(gone) <= usize::MAX,
                left@.map_values(|e: Entry| (e.key, e.providers@)) == prune_pairs(
                    pairs.take(i as int),
                    now,
                ),
                removed == pair_count(gone.take(i as int)),
            decreases len - i,
        {
            let entry = &self.entries[i];
            let ghost first = pairs.take(i + 1);
            let ghost left_before = left@.map_values(|e: Entry| (e.key, e.providers@));
            proof {
                assert(first.drop_last() =~= pairs.take(i as int));
                assert(first.last() == (entry.key, entry.providers@));
                assert(pairs[i as int] == (entry.key, entry.providers@));
                assert(gone.take(i + 1).drop_last() =~= gone.take(i as int));
                assert(gone.take(i + 1).last() == (entry.key, expired(entry.providers@, now)));
                lemma_live_or_expired(entry.providers@, now);
                lemma_pair_count_grows(gone, i + 1);
            }
            let providers = live_records(&entry.providers, now);
            removed = removed + (entry.providers.len() - providers.len());
            if providers.len() > 0 {
                left.push(Entry { key: entry.key, providers });
                proof {
                    let grown = left@.map_values(|e: Entry| (e.key, e.providers@));
                    assert(grown =~= left_before.push((entry.key, providers@)));
                    assert(grown.drop_last() =~= left_before);
                }
            }
            i = i + 1;
        }
        assert(pairs.take(i as int) =~= pairs);
        assert(gone.take(i as int) =~= gone);
        self.entries = left;
        assert(self.pairs() == prune_pairs(pairs, now));
        removed
    }

    /// The records that are in force and expire within `window`, key by key. Those that have
    /// expired are dropped.
    pub fn get_expiring_records(&mut self, now: Instant, window: Duration) -> (found: Vec<
        ProviderRecord,
    >)
        requires
            old(self).wf(),
            now.nanos + window.nanos <= u128::MAX,
        ensures
            final(self).wf(),
            final(self)@ == pruned(old(self)@, now),
            exists|keys: Seq<ContentKey>| #[trigger]
                is_key_order(keys, old(self)@) && found@ == all_expiring(
                    keys,
                    old(self)@,
                    now,
                    Instant { nanos: (now.nanos + window.nanos) as u128 },
                ),
            found@.no_duplicates(),
            forall|r: ProviderRecord| #[trigger]
                found@.contains(r) <==> (exists|key: ContentKey| #[trigger]
                    storage_laws::is_stored(old(self)@, key, r)) && now.nanos < r.expires_at.nanos
                    <= now.nanos + window.nanos,
            forall|key: ContentKey, r: ProviderRecord| #[trigger]
                storage_laws::is_stored(final(self)@, key, r) <==> storage_laws::is_stored(
                    old(self)@,
                    key,
                    r,
                ) && r.expires_at.nanos > now.nanos,
    {
        proof {
            lemma_pruned_records(self@, now);
        }
        let cutoff = now + window;
        let ghost pairs = self.pairs();
        let ghost keys = keys_of(pairs);
        let ghost storage = self@;
        let ghost pred = |r: ProviderRecord|
            is_live(r, now) && r.expires_at.nanos <= cutoff.nanos;
        let mut left: Vec<Entry> = Vec::new();
        let mut found: Vec<ProviderRecord> = Vec::new();
        let len: usize = self.entries.len();
        let mut i: usize = 0;
        proof {
            lemma_prune_pairs(pairs, now);
            lemma_pruned_wf(self@, now);
            lemma_as_map(pairs);
        }
        while i < len
            invariant
                i <= len,
                len == self.entries@.len(),
                pairs == self.pairs(),
                keys == keys_of(pairs),
                keys.no_duplicates(),
                storage == as_map(pairs),
                pred == |r: ProviderRecord| is_live(r, now) && r.expires_at.nanos <= cutoff.nanos,
                left@.map_values(|e: Entry| (e.key, e.providers@)) == prune_pairs(
                    pairs.take(i as int),
                    now,
                ),
                found@ == all_expiring(keys.take(i as int), storage, now, cutoff),
            decreases len - i,
        {
            let entry = &self.entries[i];
            let ghost first = pairs.take(i + 1);
            let ghost left_before = left@.map_values(|e: Entry| (e.key, e.providers@));
            let ghost found_before = found@;
            proof {
                assert(first.drop_last() =~= pairs.take(i as int));
                assert(first.last() == (entry.key, entry.providers@));
                assert(keys.take(i + 1).drop_last() =~= keys.take(i as int));
                lemma_as_map(pairs);
                assert(pairs[i as int] == (entry.key, entry.providers@));
                assert(storage[keys[i as int]] == entry.providers@);
                reveal(Seq::filter);
            }
            let providers = live_records(&entry.providers, now);
            let count: usize = entry.providers.len();
            let mut j: usize = 0;
            while j < count
                invariant
                    j <= count,
                    count == entry.providers@.len(),
                    pred == |r: ProviderRecord|
                        is_live(r, now) && r.expires_at.nanos <= cutoff.nanos,
                    found@ == found_before + entry.providers@.take(j as int).filter(pred),
                decreases count - j,
            {
                proof {
                    reveal(Seq::filter);
                    assert(entry.providers@.take(j + 1).drop_last() =~= entry.providers@.take(
                        j as int,
                    ));
                }
                let record = entry.providers[j];
                if record.expires_at.nanos > now.nanos && record.expires_at.nanos
                    <= cutoff.nanos {
                    found.push(record);
                }
                j = j + 1;
                assert(found@ =~= found_before + entry.providers@.take(j as int).filter(pred));
            }
            assert(entry.providers@.take(j as int) =~= entry.providers@);
            if providers.len() > 0 {
                left.push(Entry { key: entry.key, providers });
                proof {
                    let grown = left@.map_values(|e: Entry| (e.key, e.providers@));
                    assert(grown =~= left_before.push((entry.key, providers@)));
                    assert(grown.drop_last() =~= left_before);
                }
            }
            i = i + 1;
        }
        assert(pairs.take(i as int) =~= pairs);
        assert(keys.take(i as int) =~= keys);
        self.entries = left;
        assert(self.pairs() == prune_pairs(pairs, now));
        assert(is_key_order(keys, storage));
        proof {
            storage_laws::law_expiring_records_are_exact(storage, keys, now, window, found@);
        }
        found
    }

    /// How many keys have records.
    pub fn key_count(&self) -> (count: usize)
        requires
            self.wf(),
        ensures
            count == self@.dom().len(),
    {
        proof {
            lemma_as_map(self.pairs());
        }
        self.entries.len()
    }
}

/// Pairs without one of them give the map without its key.
proof fn lemma_removed(pairs: Seq<(ContentKey, Seq<ProviderRecord>)>, at: int)
    requires
        keys_of(pairs).no_duplicates(),
        0 <= at < pairs.len(),
    ensures
        keys_of(pairs.remove(at)).no_duplicates(),
        as_map(pairs.remove(at)) == as_map(pairs).remove(pairs[at].0),
{
    let rest = pairs.remove(at);
    let keys = keys_of(pairs);
    assert(keys_of(rest) =~= keys.remove(at));
    assert forall|i: int, j: int| 0 <= i < j < rest.len() implies keys_of(rest)[i] != keys_of(
        rest,
    )[j] by {
        let a = if i < at {
            i
        } else {
            i + 1
        };
        let b = if j < at {
            j
        } else {
            j + 1
        };
        assert(keys[a] != keys[b]);
    }
    lemma_as_map(pairs);
    lemma_as_map(rest);
    let small = as_map(rest);
    let big = as_map(pairs).remove(pairs[at].0);
    assert forall|key: ContentKey| #[trigger] small.contains_key(key) implies big.contains_key(key)
        && big[key] == small[key] by {
        let i = lemma_key_index(rest, key);
        let a = if i < at {
            i
        } else {
            i + 1
        };
        assert(pairs[a] == rest[i]);
        assert(keys[a] != keys[at]);
    }
    assert forall|key: ContentKey| #[trigger] big.contains_key(key) implies small.contains_key(
        key,
    ) by {
        let a = lemma_key_index(pairs, key);
        let i = if a < at {
            a
        } else {
            a - 1
        };
        assert(rest[i] == pairs[a]);
    }
    assert(small =~= big);
}

/// Pruning keeps just the records that are in force.
proof fn lemma_pruned_records(storage: Map<ContentKey, Seq<ProviderRecord>>, now: Instant)
    ensures
        forall|key: ContentKey, r: ProviderRecord| #[trigger]
            storage_laws::is_stored(pruned(storage, now), key, r) <==> storage_laws::is_stored(
                storage,
                key,
                r,
            ) && r.expires_at.nanos > now.nanos,
{
    assert forall|key: ContentKey, r: ProviderRecord| #[trigger]
        storage_laws::is_stored(pruned(storage, now), key, r) <==> storage_laws::is_stored(
            storage,
            key,
            r,
        ) && r.expires_at.nanos > now.nanos by {
        storage_laws::law_pruning_keeps_the_records_in_force(storage, now, key);
    }
}

/// The first pairs do not hold more records than all of them.
proof fn lemma_pair_count_grows(pairs: Seq<(ContentKey, Seq<ProviderRecord>)>, n: int)
    requires
        0 <= n <= pairs.len(),
    ensures
        pair_count(pairs.take(n)) <= pair_count(pairs),
    decreases pairs.len(),
{
    if n == pairs.len() {
        assert(pairs.take(n) =~= pairs);
    } else {
        lemma_pair_count_grows(pairs.drop_last(), n);
        assert(pairs.drop_last().take(n) =~= pairs.take(n));
    }
}

impl Default for DhtStorage {
    fn default() -> (storage: DhtStorage)
        ensures
            storage.wf(),
            storage@ == Map::<ContentKey, Seq<ProviderRecord>>::empty(),
    {
        DhtStorage::new()
    }
}

/// To drop expired records and then look is the same as to look, at that moment or any later.
proof fn lemma_live_of_live(records: Seq<ProviderRecord>, now: Instant, later: Instant)
    requires
        now.nanos <= later.nanos,
    ensures
        live(live(records, now), later) == live(records, later),
    decreases records.len(),
{
    reveal(Seq::filter);
    if records.len() > 0 {
        lemma_live_of_live(records.drop_last(), now, later);
        if is_live(records.last(), now) {
            assert(live(records, now).drop_last() =~= live(records.drop_last(), now));
        }
    }
}

/// Pruning cannot be seen by a lookup: at the same moment or any later, every key has the live
/// records that it had.
pub proof fn law_pruning_is_unseen(
    storage: Map<ContentKey, Seq<ProviderRecord>>,
    key: ContentKey,
    now: Instant,
    later: Instant,
)
    requires
        now.nanos <= later.nanos,
    ensures
        live(records_of(pruned(storage, now), key), later) == live(records_of(storage, key), later),
{
    reveal(Seq::filter);
    if storage.contains_key(key) {
        lemma_live_of_live(storage[key], now, later);
        if live(storage[key], now).len() == 0 {
            assert(live(storage[key], now) =~= Seq::empty());
        }
    }
}

/// Pruning drops just the records that have expired, each key keeps the others in their order, the
/// keys without any are dropped, and nothing is left for a second pruning at the same moment.
pub proof fn law_pruning_is_exact(storage: Map<ContentKey, Seq<ProviderRecord>>, now: Instant)
    requires
        wf_map(storage),
    ensures
        record_count(storage) == record_count(pruned(storage, now)) + expired_count(storage, now),
        forall|key: ContentKey| #[trigger]
            records_of(pruned(storage, now), key) == live(records_of(storage, key), now),
        forall|key: ContentKey| #[trigger]
            pruned(storage, now).contains_key(key) <==> live(records_of(storage, key), now).len()
                > 0,
        pruned(pruned(storage, now), now) == pruned(storage, now),
        expired_count(pruned(storage, now), now) == 0,
{
    reveal(Seq::filter);
    let left = pruned(storage, now);
    lemma_pruned_count(storage, now);
    lemma_pruned_wf(storage, now);
    assert forall|key: ContentKey| #[trigger] records_of(left, key) == live(
        records_of(storage, key),
        now,
    ) by {
        if storage.contains_key(key) && live(storage[key], now).len() == 0 {
            assert(live(storage[key], now) =~= Seq::empty());
        }
    }
    assert forall|key: ContentKey| #[trigger] left.contains_key(key) implies live(left[key], now)
        == left[key] && expired(left[key], now).len() == 0 by {
        lemma_live_of_live(storage[key], now, now);
        lemma_live_or_expired(storage[key], now);
    }
    assert(pruned(left, now) =~= left);
    assert(all_expired(left, now).dom() =~= left.dom());
    lemma_no_records(all_expired(left, now));
}

/// A record that was stored is found until it expires and not afterwards, once, and the records
/// of other keys are found as before.
pub proof fn law_stored_record_is_found(
    storage: Map<ContentKey, Seq<ProviderRecord>>,
    record: ProviderRecord,
    now: Instant,
    later: Instant,
)
    requires
        wf_map(storage),
    ensures
        ({
            let after = upserted(storage, record, now);
            let found = live(records_of(after, record.key), later);
            &&& found.contains(record) <==> is_live(record, later)
            &&& forall|i: int|
                0 <= i < found.len() && (#[trigger] found[i]).provider_id == record.provider_id
                    ==> found[i] == record
            &&& forall|key: ContentKey|
                key != record.key ==> #[trigger] records_of(after, key) == records_of(storage, key)
        }),
{
    let before = records_of(storage, record.key);
    let pred = |r: ProviderRecord| is_live(r, now) && r.provider_id != record.provider_id;
    let stored = before.filter(pred).push(record);
    let found = live(stored, later);
    lemma_filtered_wf(before, record.key, pred);
    assert forall|i: int| 0 <= i < stored.len() - 1 implies (#[trigger] stored[i]).provider_id
        != record.provider_id by {
        assert(before.filter(pred).contains(stored[i]));
    }
    assert forall|i: int, j: int| 0 <= i < j < stored.len() implies stored[i].provider_id
        != stored[j].provider_id by {
        if j < stored.len() - 1 {
            assert(before.filter(pred)[i].provider_id != before.filter(pred)[j].provider_id);
        }
    }
    assert forall|i: int| 0 <= i < stored.len() implies (#[trigger] stored[i]).key == record.key by {
        if i < stored.len() - 1 {
            assert(before.filter(pred)[i].key == record.key);
        }
    }
    lemma_filtered_wf(stored, record.key, |r: ProviderRecord| is_live(r, later));
    if is_live(record, later) {
        stored.lemma_filter_contains(
            |r: ProviderRecord| is_live(r, later),
            stored.len() - 1,
        );
    }
    assert forall|i: int|
        0 <= i < found.len() && (#[trigger] found[i]).provider_id == record.provider_id implies found[i]
        == record by {
        assert(found.contains(found[i]));
        let w = choose|w: int| 0 <= w < stored.len() && stored[w] == found[i];
        assert(w == stored.len() - 1);
    }
}

} // verus!
