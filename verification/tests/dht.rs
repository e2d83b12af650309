//! The distributed hash table: identifiers, the routing table and provider records.

use velyx::dht::{
    ContentKey, DhtStorage, InsertOutcome, NodeId, NodeStatus, PingFailureOutcome, ProviderRecord,
    RoutingAction, RoutingTable, K_BUCKET_COUNT, NODE_ID_LEN,
};
use velyx::time::{Clock, Duration, Instant};

fn a_moment() -> Instant {
    Clock::start().now() + Duration::from_secs(60)
}


fn node_with_lsb_bit(bit: usize) -> NodeId {
    assert!(bit < K_BUCKET_COUNT);
    let mut bytes = [0u8; NODE_ID_LEN];
    let byte_from_end = bit / 8;
    let bit_in_byte = bit % 8;
    let byte_index = NODE_ID_LEN - 1 - byte_from_end;
    bytes[byte_index] |= 1u8 << bit_in_byte;
    NodeId::from_bytes(bytes)
}

#[test]
fn xor_distance_is_symmetric() {
    let mut a = [0u8; NODE_ID_LEN];
    let mut b = [0u8; NODE_ID_LEN];
    a[0] = 0x80;
    a[31] = 0x01;
    b[0] = 0x40;
    b[30] = 0xAA;

    let a = NodeId::from_bytes(a);
    let b = NodeId::from_bytes(b);

    assert_eq!(a.xor_distance(&b), b.xor_distance(&a));
}

#[test]
fn bucket_index_maps_entire_256_bit_space() {
    let local = NodeId::from_bytes([0u8; NODE_ID_LEN]);

    for expected_bucket in 0..K_BUCKET_COUNT {
        let other = node_with_lsb_bit(expected_bucket);
        let actual_bucket = local.bucket_index(&other).expect("non-zero distance");
        assert_eq!(actual_bucket as usize, expected_bucket);
    }
}

#[test]
fn bucket_index_is_none_for_identical_node_ids() {
    let id = NodeId::from_bytes([7u8; NODE_ID_LEN]);
    assert_eq!(id.bucket_index(&id), None);
}

#[test]
fn full_bucket_returns_pending_ping_for_oldest_node() {
    let local = NodeId::from_bytes([0u8; NODE_ID_LEN]);
    let mut table = RoutingTable::new(local, 20);

    let mut oldest = [0u8; NODE_ID_LEN];
    oldest[0] = 0x80;
    oldest[31] = 0;
    let oldest_id = NodeId::from_bytes(oldest);

    for i in 0..20u8 {
        let mut bytes = [0u8; NODE_ID_LEN];
        bytes[0] = 0x80;
        bytes[31] = i;
        let id = NodeId::from_bytes(bytes);

        let outcome = table.insert(id);
        assert_eq!(
            outcome,
            InsertOutcome::Inserted {
                bucket_index: 255
            }
        );
    }

    let mut overflow = [0u8; NODE_ID_LEN];
    overflow[0] = 0x80;
    overflow[31] = 200;
    let overflow_id = NodeId::from_bytes(overflow);

    let result = table.insert_with_actions(overflow_id);
    let outcome = result.value;
    assert_eq!(
        outcome,
        InsertOutcome::PendingPing {
            bucket_index: 255,
            stale_node: oldest_id,
            new_candidate: overflow_id,
        }
    );
    assert_eq!(result.actions, vec![RoutingAction::Ping(oldest_id)]);
    assert_eq!(table.bucket_len(255), 20);
}

#[test]
fn mark_active_moves_node_to_bucket_tail() {
    let local = NodeId::from_bytes([0u8; NODE_ID_LEN]);
    let mut table = RoutingTable::new(local, 3);

    let mut a = [0u8; NODE_ID_LEN];
    a[0] = 0x80;
    a[31] = 1;
    let a = NodeId::from_bytes(a);

    let mut b = [0u8; NODE_ID_LEN];
    b[0] = 0x80;
    b[31] = 2;
    let b = NodeId::from_bytes(b);

    let mut c = [0u8; NODE_ID_LEN];
    c[0] = 0x80;
    c[31] = 3;
    let c = NodeId::from_bytes(c);

    table.insert(a);
    table.insert(b);
    table.insert(c);

    assert_eq!(table.bucket_nodes(255), vec![a, b, c]);
    assert!(table.mark_active(b));
    assert_eq!(table.bucket_nodes(255), vec![a, c, b]);
}

#[test]
fn replace_stale_swaps_dead_with_candidate() {
    let local = NodeId::from_bytes([0u8; NODE_ID_LEN]);
    let mut table = RoutingTable::new(local, 2);

    let mut a = [0u8; NODE_ID_LEN];
    a[0] = 0x80;
    a[31] = 1;
    let a = NodeId::from_bytes(a);

    let mut b = [0u8; NODE_ID_LEN];
    b[0] = 0x80;
    b[31] = 2;
    let b = NodeId::from_bytes(b);

    let mut c = [0u8; NODE_ID_LEN];
    c[0] = 0x80;
    c[31] = 3;
    let c = NodeId::from_bytes(c);

    table.insert(a);
    table.insert(b);

    let outcome = table.insert(c);
    assert_eq!(
        outcome,
        InsertOutcome::PendingPing {
            bucket_index: 255,
            stale_node: a,
            new_candidate: c,
        }
    );

    assert!(table.replace_stale(a, c));
    assert_eq!(table.bucket_nodes(255), vec![b, c]);
}

#[test]
fn insert_with_actions_emits_ping_for_lru_head() {
    let local = NodeId::from_bytes([0u8; NODE_ID_LEN]);
    let mut table = RoutingTable::new(local, 2);

    let mut a = [0u8; NODE_ID_LEN];
    a[0] = 0x80;
    a[31] = 1;
    let a = NodeId::from_bytes(a);

    let mut b = [0u8; NODE_ID_LEN];
    b[0] = 0x80;
    b[31] = 2;
    let b = NodeId::from_bytes(b);

    let mut c = [0u8; NODE_ID_LEN];
    c[0] = 0x80;
    c[31] = 3;
    let c = NodeId::from_bytes(c);

    table.insert(a);
    table.insert(b);

    let result = table.insert_with_actions(c);
    assert_eq!(result.actions, vec![RoutingAction::Ping(a)]);
    assert_eq!(
        result.value,
        InsertOutcome::PendingPing {
            bucket_index: 255,
            stale_node: a,
            new_candidate: c,
        }
    );
}

#[test]
fn find_closest_nodes_returns_sorted_by_xor_distance() {
    let local = NodeId::from_bytes([0u8; NODE_ID_LEN]);
    let mut table = RoutingTable::new(local, 20);

    let mut n1 = [0u8; NODE_ID_LEN];
    n1[31] = 0x01;
    let n1 = NodeId::from_bytes(n1);

    let mut n2 = [0u8; NODE_ID_LEN];
    n2[31] = 0x02;
    let n2 = NodeId::from_bytes(n2);

    let mut n3 = [0u8; NODE_ID_LEN];
    n3[31] = 0x04;
    let n3 = NodeId::from_bytes(n3);

    table.insert(n3);
    table.insert(n1);
    table.insert(n2);

    let target = NodeId::from_bytes([0u8; NODE_ID_LEN]);
    let closest = table.find_closest_nodes(target, 3);
    assert_eq!(closest, vec![n1, n2, n3]);
}

#[test]
fn find_closest_nodes_respects_limit_and_empty_cases() {
    let local = NodeId::from_bytes([0u8; NODE_ID_LEN]);
    let mut table = RoutingTable::new(local, 20);
    let target = NodeId::from_bytes([0u8; NODE_ID_LEN]);

    assert!(table.find_closest_nodes(target, 5).is_empty());
    assert!(table.find_closest_nodes(target, 0).is_empty());

    let mut n1 = [0u8; NODE_ID_LEN];
    n1[31] = 0x01;
    let n1 = NodeId::from_bytes(n1);

    let mut n2 = [0u8; NODE_ID_LEN];
    n2[31] = 0x02;
    let n2 = NodeId::from_bytes(n2);

    let mut n3 = [0u8; NODE_ID_LEN];
    n3[31] = 0x03;
    let n3 = NodeId::from_bytes(n3);

    table.insert(n1);
    table.insert(n2);
    table.insert(n3);

    let limited = table.find_closest_nodes(target, 2);
    assert_eq!(limited.len(), 2);

    let via_lookup = table.lookup(target);
    assert_eq!(via_lookup.len(), 3);
}

#[test]
fn nodes_found_received_collects_cascading_actions() {
    let local = NodeId::from_bytes([0u8; NODE_ID_LEN]);
    let mut table = RoutingTable::new(local, 1);

    let mut a = [0u8; NODE_ID_LEN];
    a[0] = 0x80;
    a[31] = 1;
    let a = NodeId::from_bytes(a);

    let mut b = [0u8; NODE_ID_LEN];
    b[0] = 0x80;
    b[31] = 2;
    let b = NodeId::from_bytes(b);

    table.insert(a);
    let actions = table.nodes_found_received(vec![b]);

    assert_eq!(actions, vec![RoutingAction::Ping(a)]);
}

#[test]
fn least_recently_refreshed_bucket_excludes_recently_touched_bucket() {
    let local = NodeId::from_bytes([0u8; NODE_ID_LEN]);
    let mut table = RoutingTable::new(local, 20);

    let mut peer = [0u8; NODE_ID_LEN];
    peer[0] = 0x80;
    peer[31] = 7;
    let peer = NodeId::from_bytes(peer);

    table.insert(peer);

    let now = table.now() + Duration::from_millis(1);
    let bucket = table
        .get_least_recently_refreshed_bucket_index(now, Duration::from_secs(0))
        .expect("at least one bucket should be eligible");

    assert_ne!(bucket, 255);
}

#[test]
fn least_recently_refreshed_bucket_honors_stale_threshold() {
    let local = NodeId::from_bytes([0u8; NODE_ID_LEN]);
    let table = RoutingTable::new(local, 20);

    let now = table.now();
    let idx = table.get_least_recently_refreshed_bucket_index(now, Duration::from_secs(60));
    assert_eq!(idx, None);
}

#[test]
fn metrics_snapshot_tracks_basic_insert_outcomes() {
    let local = NodeId::from_bytes([0u8; NODE_ID_LEN]);
    let mut table = RoutingTable::new(local, 1);

    let mut a = [0u8; NODE_ID_LEN];
    a[0] = 0x80;
    a[31] = 1;
    let a = NodeId::from_bytes(a);

    let mut b = [0u8; NODE_ID_LEN];
    b[0] = 0x80;
    b[31] = 2;
    let b = NodeId::from_bytes(b);

    table.insert_with_actions(a);
    table.insert_with_actions(a);
    table.insert_with_actions(b);

    let snap = table.metrics_snapshot();
    assert_eq!(snap.metrics.insert_inserted, 1);
    assert_eq!(snap.metrics.insert_already_present, 1);
    assert_eq!(snap.metrics.insert_pending_ping, 1);
    assert_eq!(snap.total_nodes, 1);
    assert_eq!(snap.non_empty_buckets, 1);
    assert_eq!(snap.max_bucket_len, 1);
}

#[test]
fn ping_failure_soft_marks_then_hard_evicts() {
    let local = NodeId::from_bytes([0u8; NODE_ID_LEN]);
    let mut table = RoutingTable::new(local, 2);

    let mut a = [0u8; NODE_ID_LEN];
    a[0] = 0x80;
    a[31] = 1;
    let a = NodeId::from_bytes(a);

    table.insert(a);

    let first = table.process_ping_failure(a);
    assert_eq!(
        first,
        PingFailureOutcome::Suspected {
            bucket_index: 255,
            node_id: a,
        }
    );
    assert_eq!(table.node_status(a), Some(NodeStatus::Suspected));

    let second = table.process_ping_failure(a);
    assert_eq!(
        second,
        PingFailureOutcome::Evicted {
            bucket_index: 255,
            node_id: a,
            replaced_with: None,
        }
    );
    assert_eq!(table.node_status(a), None);
    assert_eq!(table.bucket_len(255), 0);
}

#[test]
fn hard_evict_promotes_replacement_candidate() {
    let local = NodeId::from_bytes([0u8; NODE_ID_LEN]);
    let mut table = RoutingTable::new(local, 1);

    let mut a = [0u8; NODE_ID_LEN];
    a[0] = 0x80;
    a[31] = 1;
    let a = NodeId::from_bytes(a);

    let mut b = [0u8; NODE_ID_LEN];
    b[0] = 0x80;
    b[31] = 2;
    let b = NodeId::from_bytes(b);

    table.insert(a);
    let overflow = table.insert_with_actions(b);
    assert_eq!(
        overflow.value,
        InsertOutcome::PendingPing {
            bucket_index: 255,
            stale_node: a,
            new_candidate: b,
        }
    );

    let _ = table.process_ping_failure(a);
    let evicted = table.process_ping_failure(a);
    assert_eq!(
        evicted,
        PingFailureOutcome::Evicted {
            bucket_index: 255,
            node_id: a,
            replaced_with: Some(b),
        }
    );
    assert_eq!(table.node_status(b), Some(NodeStatus::Active));
    assert_eq!(table.bucket_nodes(255), vec![b]);
}

#[test]
fn content_key_from_content_is_stable() {
    let a = ContentKey::from_content(b"velyx-content");
    let b = ContentKey::from_content(b"velyx-content");
    let c = ContentKey::from_content(b"velyx-content-v2");

    assert_eq!(a, b);
    assert_ne!(a, c);
}

#[test]
fn dht_storage_upsert_deduplicates_provider() {
    let mut storage = DhtStorage::new();
    let now = a_moment();

    let key = ContentKey::from_content(b"demo");
    let provider = NodeId::from_bytes([1u8; NODE_ID_LEN]);

    storage.upsert_provider(
        ProviderRecord {
            key,
            provider_id: provider,
            expires_at: now + Duration::from_secs(10),
        },
        now,
    );
    storage.upsert_provider(
        ProviderRecord {
            key,
            provider_id: provider,
            expires_at: now + Duration::from_secs(20),
        },
        now,
    );

    let providers = storage.providers_for(key, now);
    assert_eq!(providers.len(), 1);
    assert_eq!(providers[0].provider_id, provider);
    assert!(providers[0].expires_at > now + Duration::from_secs(15));
}

#[test]
fn dht_storage_prunes_expired_records() {
    let mut storage = DhtStorage::new();
    let now = a_moment();

    let key = ContentKey::from_content(b"ttl-key");
    let alive = NodeId::from_bytes([2u8; NODE_ID_LEN]);
    let stale = NodeId::from_bytes([3u8; NODE_ID_LEN]);

    storage.upsert_provider(
        ProviderRecord {
            key,
            provider_id: stale,
            expires_at: now + Duration::from_secs(1),
        },
        now,
    );
    storage.upsert_provider(
        ProviderRecord {
            key,
            provider_id: alive,
            expires_at: now + Duration::from_secs(10),
        },
        now,
    );

    let removed = storage.prune_expired(now + Duration::from_secs(2));
    assert_eq!(removed, 1);

    let providers = storage.providers_for(key, now + Duration::from_secs(2));
    assert_eq!(providers.len(), 1);
    assert_eq!(providers[0].provider_id, alive);
}

#[test]
fn dht_storage_returns_records_expiring_within_window() {
    let mut storage = DhtStorage::new();
    let now = a_moment();

    let key = ContentKey::from_content(b"republish-key");
    let soon = NodeId::from_bytes([4u8; NODE_ID_LEN]);
    let later = NodeId::from_bytes([5u8; NODE_ID_LEN]);
    let expired = NodeId::from_bytes([6u8; NODE_ID_LEN]);

    storage.upsert_provider(
        ProviderRecord {
            key,
            provider_id: soon,
            expires_at: now + Duration::from_secs(5),
        },
        now,
    );
    storage.upsert_provider(
        ProviderRecord {
            key,
            provider_id: later,
            expires_at: now + Duration::from_secs(50),
        },
        now,
    );
    storage.upsert_provider(
        ProviderRecord {
            key,
            provider_id: expired,
            expires_at: now + Duration::from_secs(1),
        },
        now - Duration::from_secs(2),
    );

    let expiring = storage.get_expiring_records(now + Duration::from_secs(2), Duration::from_secs(10));
    assert_eq!(expiring.len(), 1);
    assert_eq!(expiring[0].provider_id, soon);
}
