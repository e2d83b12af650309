//! The routing table and the storage at their limits.

use velyx::dht::{
    ContentKey, DhtStorage, InsertOutcome, NodeId, NodeStatus, PingFailureOutcome, ProviderRecord,
    RoutingAction, RoutingTable,
};
use velyx::time::{millis_of_reading, unix_millis, Clock, Duration, Instant};

fn far(last: u8) -> NodeId {
    let mut bytes = [0u8; 32];
    bytes[0] = 0x80;
    bytes[31] = last;
    NodeId::from_bytes(bytes)
}

fn near(last: u8) -> NodeId {
    let mut bytes = [0u8; 32];
    bytes[31] = last;
    NodeId::from_bytes(bytes)
}

fn table(k: usize) -> RoutingTable {
    RoutingTable::new(near(0), k)
}

fn at(secs: u64) -> Instant {
    Instant { nanos: 0 } + Duration::from_secs(secs)
}

#[test]
fn distance_is_the_exclusive_or() {
    let d = far(0x0F).xor_distance(&far(0xF1));
    let mut expected = [0u8; 32];
    expected[31] = 0xFE;
    assert_eq!(d.as_bytes(), &expected);
    assert!(!d.is_zero());
    assert!(far(1).xor_distance(&far(1)).is_zero());
    assert_eq!(d.bucket_index(), Some(7));
    assert_eq!(far(1).xor_distance(&near(1)).bucket_index(), Some(255));
    assert!(near(1).xor_distance(&near(0)).shorter_than(&near(2).xor_distance(&near(0))));
    assert!(!near(2).xor_distance(&near(0)).shorter_than(&near(2).xor_distance(&near(0))));
}

#[test]
fn content_key_is_the_sha256_digest() {
    let key = ContentKey::from_content(b"velyx-content");
    let expected = [
        0x0f, 0x28, 0x18, 0xb8, 0x84, 0xfa, 0x3f, 0x77, 0xf8, 0xe7, 0x61, 0x44, 0xbf, 0x24, 0x63,
        0xdc, 0xe1, 0xf8, 0x26, 0x33, 0x65, 0xc0, 0xcf, 0x04, 0x78, 0xe8, 0xe3, 0x3f, 0x16, 0x5b,
        0x21, 0x54,
    ];
    assert_eq!(key.as_bytes(), &expected);
    assert_eq!(key, ContentKey::from_bytes(expected));
}

#[test]
fn own_node_is_ignored() {
    let mut t = table(2);
    assert_eq!(t.insert(near(0)), InsertOutcome::IgnoredSelf);
    assert!(!t.mark_active(near(0)));
    assert_eq!(t.process_ping_failure(near(0)), PingFailureOutcome::NotFound);
    assert!(!t.replace_stale(near(0), near(1)));
    assert_eq!(t.node_status(near(0)), None);
    let m = t.metrics_snapshot().metrics;
    assert_eq!((m.insert_ignored_self, m.mark_active_miss, m.replace_stale_miss), (1, 1, 1));
    assert_eq!(t.local_id(), near(0));
    assert_eq!(t.k(), 2);
}

#[test]
fn full_bucket_keeps_its_nodes_and_remembers_candidates() {
    let mut t = table(2);
    t.insert(far(1));
    t.insert(far(2));
    for last in 3..8u8 {
        let result = t.insert_with_actions(far(last));
        assert_eq!(
            result.value,
            InsertOutcome::PendingPing {
                bucket_index: 255,
                stale_node: far(1),
                new_candidate: far(last),
            }
        );
        assert_eq!(result.actions, vec![RoutingAction::Ping(far(1))]);
        assert_eq!(t.bucket_nodes(255), vec![far(1), far(2)]);
    }
    // The last two candidates are left, the older one first.
    t.process_ping_failure(far(1));
    assert_eq!(
        t.process_ping_failure(far(1)),
        PingFailureOutcome::Evicted {
            bucket_index: 255,
            node_id: far(1),
            replaced_with: Some(far(6)),
        }
    );
    t.process_ping_failure(far(2));
    assert_eq!(
        t.process_ping_failure(far(2)),
        PingFailureOutcome::Evicted {
            bucket_index: 255,
            node_id: far(2),
            replaced_with: Some(far(7)),
        }
    );
    assert_eq!(t.bucket_nodes(255), vec![far(6), far(7)]);
}

#[test]
fn answer_drops_the_waiting_candidate() {
    let mut t = table(1);
    t.insert(far(1));
    t.insert(far(2));
    assert!(t.mark_active(far(1)));
    // Nobody waits any more: an eviction leaves the bucket empty.
    t.process_ping_failure(far(1));
    assert_eq!(
        t.process_ping_failure(far(1)),
        PingFailureOutcome::Evicted { bucket_index: 255, node_id: far(1), replaced_with: None }
    );
    assert_eq!(t.bucket_len(255), 0);
}

#[test]
fn answer_clears_suspicion() {
    let mut t = table(3);
    t.insert(far(1));
    t.insert(far(2));
    t.process_ping_failure(far(2));
    assert_eq!(t.bucket_nodes(255), vec![far(2), far(1)]);
    assert_eq!(t.node_status(far(2)), Some(NodeStatus::Suspected));
    assert!(t.mark_active(far(2)));
    assert_eq!(t.node_status(far(2)), Some(NodeStatus::Active));
    assert_eq!(t.bucket_nodes(255), vec![far(1), far(2)]);
}

#[test]
fn inserting_again_moves_to_the_tail() {
    let mut t = table(3);
    t.insert(far(1));
    t.insert(far(2));
    assert_eq!(t.insert(far(1)), InsertOutcome::AlreadyPresent { bucket_index: 255 });
    assert_eq!(t.bucket_nodes(255), vec![far(2), far(1)]);
}

#[test]
fn replacement_is_bound_to_its_candidate() {
    let mut t = table(1);
    t.insert(far(1));
    t.insert(far(2));
    assert!(!t.replace_stale(far(1), far(3)));
    assert!(!t.replace_stale(far(9), far(2)));
    assert!(!t.replace_stale(far(1), near(2)));
    assert!(t.replace_stale(far(1), far(2)));
    assert_eq!(t.bucket_nodes(255), vec![far(2)]);
    let m = t.metrics_snapshot().metrics;
    assert_eq!((m.replace_stale_ok, m.replace_stale_miss), (1, 3));
}

#[test]
fn evicted_node_goes_even_where_the_replacement_is_there() {
    let mut t = table(2);
    t.insert(far(1));
    t.insert(far(2));
    t.insert(far(3));
    t.insert(far(4));
    // One node goes, its candidate being in the bucket already, and one of the waiting comes.
    assert!(t.replace_stale(far(2), far(1)));
    assert_eq!(t.bucket_nodes(255), vec![far(1)]);
    assert_eq!(t.insert(far(3)), InsertOutcome::Inserted { bucket_index: 255 });
    t.process_ping_failure(far(1));
    assert_eq!(
        t.process_ping_failure(far(1)),
        PingFailureOutcome::Evicted {
            bucket_index: 255,
            node_id: far(1),
            replaced_with: Some(far(3)),
        }
    );
    assert_eq!(t.bucket_nodes(255), vec![far(3)]);
}

#[test]
fn closest_nodes_come_nearest_first() {
    let mut t = table(4);
    for last in [9u8, 3, 12, 1, 200, 77] {
        t.insert(near(last));
        t.insert(far(last));
    }
    assert_eq!(t.find_closest_nodes(near(8), 4), vec![near(9), near(12), near(1), near(3)]);
    assert_eq!(t.find_closest_nodes(far(12), 1), vec![far(12)]);
    assert_eq!(t.lookup(near(77))[0], near(77));
    assert_eq!(t.find_closest_nodes(near(8), 100).len(), t.metrics_snapshot().total_nodes);
    assert_eq!(t.lookup_with_metrics(near(77)), t.lookup(near(77)));
    assert_eq!(t.metrics_snapshot().metrics.lookup_queries, 1);
}

#[test]
fn oldest_stale_bucket_is_found() {
    let mut t = table(2);
    for b in 0..=255u8 {
        t.mark_bucket_refreshed_at(b, at(1000));
    }
    t.mark_bucket_refreshed_at(9, at(300));
    t.mark_bucket_refreshed_at(7, at(200));
    t.mark_bucket_refreshed_at(8, at(200));
    let oldest = |now, age| {
        t.get_least_recently_refreshed_bucket_index(at(now), Duration::from_secs(age))
    };
    assert_eq!(oldest(1000, 700), Some(7));
    assert_eq!(oldest(1000, 800), Some(7));
    assert_eq!(oldest(1000, 801), None);
    assert_eq!(oldest(100, 0), Some(7));
    assert_eq!(oldest(100, 1), None);
    assert_eq!(t.metrics_snapshot().metrics.refresh_marked, 259);
}

#[test]
fn refresh_takes_the_present() {
    let mut t = table(2);
    t.insert(far(1));
    t.mark_bucket_refreshed(3);
    let late = t.now() + Duration::from_secs(10);
    let first = t.get_least_recently_refreshed_bucket_index(late, Duration::from_secs(1));
    assert_eq!(first, Some(0));
}

#[test]
fn reply_is_heard_node_by_node() {
    let mut t = table(1);
    let actions = t.nodes_found_received(vec![near(0), far(1), far(1), far(2), near(1), far(3)]);
    assert_eq!(actions, vec![RoutingAction::Ping(far(1)), RoutingAction::Ping(far(1))]);
    let s = t.metrics_snapshot();
    assert_eq!(s.metrics.nodes_found_batches, 1);
    assert_eq!(s.metrics.nodes_found_nodes_total, 6);
    assert_eq!(s.metrics.insert_inserted, 2);
    assert_eq!(s.metrics.insert_already_present, 1);
    assert_eq!(s.metrics.insert_pending_ping, 2);
    assert_eq!(s.metrics.insert_ignored_self, 1);
    assert_eq!(s.metrics.actions_generated_ping, 2);
    assert_eq!((s.total_nodes, s.non_empty_buckets, s.max_bucket_len), (2, 2, 1));
    assert_eq!(s.bucket_occupancy.len(), 256);
    assert_eq!((s.bucket_occupancy[255], s.bucket_occupancy[0], s.bucket_occupancy[1]), (1, 1, 0));
}

#[test]
fn records_are_counted() {
    let mut t = table(1);
    t.record_action_generated(RoutingAction::Ping(far(1)));
    t.record_action_generated(RoutingAction::Lookup(far(1)));
    t.record_action_generated(RoutingAction::Lookup(far(1)));
    t.record_value_lookup_hit();
    t.record_value_lookup_miss();
    t.record_value_lookup_miss();
    t.record_store_provider_received();
    let m = t.metrics_snapshot().metrics;
    assert_eq!((m.actions_generated_ping, m.actions_generated_lookup), (1, 2));
    assert_eq!((m.value_lookup_hit, m.value_lookup_miss), (1, 2));
    assert_eq!(m.store_provider_received, 1);
    assert_eq!((m.nodes_suspected, m.nodes_evicted, m.mark_active_ok), (0, 0, 0));
}

#[test]
fn contacts_keep_the_moment_they_are_given() {
    let mut t = table(2);
    assert_eq!(
        t.insert_at(far(1), at(5)).value,
        InsertOutcome::Inserted { bucket_index: 255 }
    );
    assert!(t.mark_active_at(far(1), at(6)).value);
    t.process_ping_failure_at(far(1), at(7));
    assert!(t.replace_stale_at(far(1), far(2), at(8)).value);
    assert_eq!(t.bucket_nodes(255), vec![far(2)]);
}

#[test]
fn expired_records_are_not_found() {
    let key = ContentKey::from_bytes([1; 32]);
    let mut s = DhtStorage::default();
    for last in 1..4u8 {
        s.upsert_provider(
            ProviderRecord { key, provider_id: far(last), expires_at: at(10 * last as u64) },
            at(0),
        );
    }
    assert_eq!(s.key_count(), 1);
    let found = s.providers_for(key, at(10));
    assert_eq!(found.iter().map(|r| r.provider_id).collect::<Vec<_>>(), vec![far(2), far(3)]);
    assert!(s.providers_for(ContentKey::from_bytes([2; 32]), at(10)).is_empty());
    assert_eq!(s.key_count(), 1);
    assert!(s.providers_for(key, at(30)).is_empty());
    assert_eq!(s.key_count(), 0);
}

#[test]
fn renewed_record_comes_last_and_once() {
    let key = ContentKey::from_bytes([1; 32]);
    let mut s = DhtStorage::new();
    for (last, secs) in [(1u8, 10u64), (2, 20), (3, 5), (1, 30)] {
        s.upsert_provider(
            ProviderRecord { key, provider_id: far(last), expires_at: at(secs) },
            at(if last == 1 { 6 } else { 0 }),
        );
    }
    let found = s.providers_for(key, at(0));
    assert_eq!(found.iter().map(|r| r.provider_id).collect::<Vec<_>>(), vec![far(2), far(1)]);
    assert_eq!(found[1].expires_at, at(30));
}

#[test]
fn pruning_counts_over_all_keys() {
    let mut s = DhtStorage::new();
    for k in 0..3u8 {
        for last in 0..=k {
            s.upsert_provider(
                ProviderRecord {
                    key: ContentKey::from_bytes([k; 32]),
                    provider_id: far(last),
                    expires_at: at(10 + last as u64),
                },
                at(0),
            );
        }
    }
    assert_eq!(s.key_count(), 3);
    assert_eq!(s.prune_expired(at(9)), 0);
    assert_eq!(s.prune_expired(at(10)), 3);
    assert_eq!(s.key_count(), 2);
    let found = s.providers_for(ContentKey::from_bytes([2; 32]), at(10));
    assert_eq!(found.len(), 2);
    assert_eq!(s.prune_expired(at(100)), 3);
    assert_eq!(s.key_count(), 0);
}

#[test]
fn expiring_records_lie_in_the_window() {
    let mut s = DhtStorage::new();
    for (k, secs) in [(1u8, 10u64), (2, 11), (3, 15), (4, 16)] {
        s.upsert_provider(
            ProviderRecord {
                key: ContentKey::from_bytes([k; 32]),
                provider_id: far(k),
                expires_at: at(secs),
            },
            at(0),
        );
    }
    let mut found: Vec<NodeId> = s
        .get_expiring_records(at(10), Duration::from_secs(5))
        .iter()
        .map(|r| r.provider_id)
        .collect();
    found.sort();
    assert_eq!(found, vec![far(2), far(3)]);
    assert_eq!(s.key_count(), 3);
}

#[test]
fn spans_of_time() {
    assert_eq!(Duration::from_secs(2).nanos, 2_000_000_000);
    assert_eq!(Duration::from_millis(3).nanos, 3_000_000);
    assert_eq!(Duration { nanos: 1_999_999 }.as_millis(), 1);
    assert_eq!(Duration::from_parts(2, 7).nanos, 2_000_000_007);
    assert_eq!(
        Duration::from_parts(u64::MAX, 999_999_999).nanos,
        18_446_744_073_709_551_615_999_999_999
    );
    assert_eq!(millis_of_reading(Some((1_700_000_000, 999_999_999))), 1_700_000_000_999);
    assert_eq!(millis_of_reading(None), 0);
    assert_eq!(at(5).saturating_duration_since(at(3)), Duration::from_secs(2));
    assert_eq!(at(3).saturating_duration_since(at(5)), Duration::from_secs(0));
    assert_eq!(at(5) - Duration::from_secs(2), at(3));
    let clock = Clock::start();
    let first = clock.now();
    assert!(clock.now() >= first);
    assert!(first.nanos < 10_000_000_000);
    // From 2020 to 2100.
    assert!(unix_millis() > 1_577_836_800_000 && unix_millis() < 4_102_444_800_000);
}

#[test]
fn suspected_nodes_stand_before_active_ones() {
    let mut t = table(5);
    for last in 1..6u8 {
        t.insert(far(last));
    }
    t.process_ping_failure(far(3));
    t.process_ping_failure(far(5));
    assert_eq!(t.bucket_nodes(255), vec![far(5), far(3), far(1), far(2), far(4)]);
    t.mark_active(far(3));
    t.insert(far(1));
    t.replace_stale(far(2), far(9));
    assert_eq!(t.bucket_nodes(255), vec![far(5), far(4), far(3), far(1), far(9)]);
    let statuses: Vec<_> = t.bucket_nodes(255).iter().map(|n| t.node_status(*n)).collect();
    assert_eq!(statuses[0], Some(NodeStatus::Suspected));
    assert!(statuses[1..].iter().all(|s| *s == Some(NodeStatus::Active)));
}

#[test]
fn every_offer_is_counted_once() {
    let mut t = table(2);
    t.insert(near(0));
    t.insert_with_actions(far(1));
    t.nodes_found_received(vec![far(1), far(2), far(3), near(7), near(0)]);
    t.mark_active(far(1));
    t.process_ping_failure(far(2));
    t.replace_stale(far(2), far(3));
    t.lookup_with_metrics(far(1));
    t.mark_bucket_refreshed(4);
    let s = t.metrics_snapshot();
    let m = s.metrics;
    assert_eq!(
        m.insert_inserted + m.insert_already_present + m.insert_pending_ping + m.insert_ignored_self,
        7
    );
    assert_eq!(s.bucket_occupancy.iter().sum::<usize>(), s.total_nodes);
    assert_eq!(s.total_nodes, 3);
}

#[test]
fn node_that_is_its_own_replacement_comes_back() {
    let mut t = table(2);
    t.insert(far(1));
    t.insert(far(2));
    t.insert(far(3));
    assert!(!t.replace_stale(far(1), far(2)));
    assert!(t.replace_stale(far(2), far(1)));
    t.insert(far(3));
    t.process_ping_failure(far(3));
    assert_eq!(
        t.process_ping_failure(far(3)),
        PingFailureOutcome::Evicted {
            bucket_index: 255,
            node_id: far(3),
            replaced_with: Some(far(3)),
        }
    );
    assert_eq!(t.bucket_nodes(255), vec![far(1), far(3)]);
    assert_eq!(t.node_status(far(3)), Some(NodeStatus::Active));
}

#[test]
fn second_pruning_finds_nothing() {
    let mut s = DhtStorage::new();
    for (k, secs) in [(1u8, 5u64), (1, 10), (1, 15), (2, 10)] {
        s.upsert_provider(
            ProviderRecord {
                key: ContentKey::from_bytes([k; 32]),
                provider_id: far(secs as u8),
                expires_at: at(secs),
            },
            at(0),
        );
    }
    assert_eq!(s.prune_expired(at(10)), 3);
    assert_eq!(s.prune_expired(at(10)), 0);
    assert_eq!(s.key_count(), 1);
}

/// Waits until a clock has moved on.
fn pass_time(clock: Clock) {
    let before = clock.now();
    while clock.now() <= before {}
}

#[test]
fn tables_with_one_clock_share_their_moments() {
    let clock = Clock::start();
    let first = RoutingTable::with_clock(near(0), 4, clock);
    pass_time(clock);
    let between = first.now();
    let second = RoutingTable::with_clock(near(1), 4, clock);
    let now = second.clock().now();
    let stale_after = Duration {
        nanos: now.saturating_duration_since(between).nanos + 1,
    };
    assert_eq!(first.get_least_recently_refreshed_bucket_index(now, stale_after), Some(0));
    assert_eq!(second.get_least_recently_refreshed_bucket_index(now, stale_after), None);
}

#[test]
fn one_reading_has_a_moment_by_each_clock() {
    let early = std::time::Instant::now();
    let first = RoutingTable::new(near(0), 4);
    assert_eq!(first.clock().moment_of(&early), Instant { nanos: 0 });
    pass_time(first.clock());
    let between = std::time::Instant::now();
    let second = RoutingTable::new(near(1), 4);
    let at = std::time::Instant::now();
    let here = first.clock().moment_of(&at);
    let there = second.clock().moment_of(&at);
    assert!(there < here);
    let stale_after = Duration {
        nanos: here.saturating_duration_since(first.clock().moment_of(&between)).nanos + 1,
    };
    assert_eq!(first.get_least_recently_refreshed_bucket_index(here, stale_after), Some(0));
    assert_eq!(second.get_least_recently_refreshed_bucket_index(there, stale_after), None);
    assert_eq!(
        first.clock().moment_of(&(at + std::time::Duration::from_millis(1500))),
        here + Duration::from_millis(1500)
    );
}
