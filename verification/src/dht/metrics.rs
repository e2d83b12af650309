//! What a routing table counts.

use vstd::prelude::*;

verus! {

/// How often each thing happened to a routing table.
#[derive(Debug, Clone, Copy)]
pub struct DhtMetrics {
    pub insert_inserted: u64,
    pub insert_already_present: u64,
    pub insert_pending_ping: u64,
    pub insert_ignored_self: u64,
    pub mark_active_ok: u64,
    pub mark_active_miss: u64,
    pub replace_stale_ok: u64,
    pub replace_stale_miss: u64,
    pub lookup_queries: u64,
    pub nodes_found_batches: u64,
    pub nodes_found_nodes_total: u64,
    pub refresh_marked: u64,
    pub actions_generated_ping: u64,
    pub actions_generated_lookup: u64,
    pub nodes_suspected: u64,
    pub nodes_evicted: u64,
    pub value_lookup_hit: u64,
    pub value_lookup_miss: u64,
    pub store_provider_received: u64,
}

impl DhtMetrics {
    /// Nothing has happened yet.
    pub open spec fn zero() -> DhtMetrics {
        DhtMetrics {
            insert_inserted: 0,
            insert_already_present: 0,
            insert_pending_ping: 0,
            insert_ignored_self: 0,
            mark_active_ok: 0,
            mark_active_miss: 0,
            replace_stale_ok: 0,
            replace_stale_miss: 0,
            lookup_queries: 0,
            nodes_found_batches: 0,
            nodes_found_nodes_total: 0,
            refresh_marked: 0,
            actions_generated_ping: 0,
            actions_generated_lookup: 0,
            nodes_suspected: 0,
            nodes_evicted: 0,
            value_lookup_hit: 0,
            value_lookup_miss: 0,
            store_provider_received: 0,
        }
    }

    /// The counters that an insert touches have grown by at most `n` since `start`.
    pub open spec fn counted_since(self, start: DhtMetrics, n: nat) -> bool {
        &&& self.nodes_found_nodes_total <= start.nodes_found_nodes_total + n
        &&& self.insert_inserted <= start.insert_inserted + n
        &&& self.insert_already_present <= start.insert_already_present + n
        &&& self.insert_pending_ping <= start.insert_pending_ping + n
        &&& self.actions_generated_ping <= start.actions_generated_ping + n
        &&& self.insert_ignored_self <= start.insert_ignored_self + n
    }
}

impl Default for DhtMetrics {
    fn default() -> (metrics: DhtMetrics)
        ensures
            metrics == DhtMetrics::zero(),
    {
        DhtMetrics {
            insert_inserted: 0,
            insert_already_present: 0,
            insert_pending_ping: 0,
            insert_ignored_self: 0,
            mark_active_ok: 0,
            mark_active_miss: 0,
            replace_stale_ok: 0,
            replace_stale_miss: 0,
            lookup_queries: 0,
            nodes_found_batches: 0,
            nodes_found_nodes_total: 0,
            refresh_marked: 0,
            actions_generated_ping: 0,
            actions_generated_lookup: 0,
            nodes_suspected: 0,
            nodes_evicted: 0,
            value_lookup_hit: 0,
            value_lookup_miss: 0,
            store_provider_received: 0,
        }
    }
}

/// The counters of a routing table and how full it is, at one moment.
#[derive(Debug, Clone)]
pub struct DhtMetricsSnapshot {
    pub metrics: DhtMetrics,
    pub total_nodes: usize,
    pub non_empty_buckets: usize,
    pub max_bucket_len: usize,
    pub bucket_occupancy: Vec<usize>,
}

/// A table to which nothing has happened has counted nothing.
pub proof fn law_nothing_is_counted_at_first()
    ensures
        ({
            let m = DhtMetrics::zero();
            &&& m.insert_inserted == 0 && m.insert_already_present == 0
            &&& m.insert_pending_ping == 0 && m.insert_ignored_self == 0
            &&& m.mark_active_ok == 0 && m.mark_active_miss == 0
            &&& m.replace_stale_ok == 0 && m.replace_stale_miss == 0
            &&& m.lookup_queries == 0 && m.nodes_found_batches == 0
            &&& m.nodes_found_nodes_total == 0 && m.refresh_marked == 0
            &&& m.actions_generated_ping == 0 && m.actions_generated_lookup == 0
            &&& m.nodes_suspected == 0 && m.nodes_evicted == 0
            &&& m.value_lookup_hit == 0 && m.value_lookup_miss == 0
            &&& m.store_provider_received == 0
        }),
{
}

} // verus!
