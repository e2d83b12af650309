//! The routing table: which nodes are known, by their distance from the table's own node.

use crate::dht::bucket;
use crate::dht::bucket::{Bucket, BucketView};
use crate::dht::closest;
use crate::dht::closest::pick;
use crate::dht::contact;
use crate::dht::contact::NodeStatus;
use crate::dht::id;
use crate::dht::id::NodeId;
use crate::dht::metrics::{DhtMetrics, DhtMetricsSnapshot};
use crate::time::{Clock, Duration, Instant};
use vstd::prelude::*;

verus! {

/// The number of buckets: one for each bit of an identifier.
pub const K_BUCKET_COUNT: usize = 256;

/// What became of a node that the table heard of.
#[derive(Debug, Clone, Copy, PartialEq, Eq)]
pub enum InsertOutcome {
    /// The node was put in its bucket.
    Inserted { bucket_index: u8 },
    /// The bucket held the node already.
    AlreadyPresent { bucket_index: u8 },
    /// The bucket is full: its first node has to be asked whether it lives.
    PendingPing { bucket_index: u8, stale_node: NodeId, new_candidate: NodeId },
    /// The node is the table's own.
    IgnoredSelf,
}

/// What has to be done on the network on behalf of the table.
#[derive(Debug, Clone, Copy, PartialEq, Eq)]
pub enum RoutingAction {
    /// Ask a node whether it lives.
    Ping(NodeId),
    /// Look for the nodes near an identifier.
    Lookup(NodeId),
}

/// What an operation returned, and what has to be done because of it.
#[derive(Debug, Clone, PartialEq, Eq)]
pub struct RoutingResult<T> {
    pub value: T,
    pub actions: Vec<RoutingAction>,
}

/// What became of a node that did not answer.
#[derive(Debug, Clone, Copy, PartialEq, Eq)]
pub enum PingFailureOutcome {
    /// The table does not hold the node.
    NotFound,
    /// The node is suspected from now on, and the first to go.
    Suspected { bucket_index: u8, node_id: NodeId },
    /// The node was suspected before, and is gone; a replacement may have come up.
    Evicted { bucket_index: u8, node_id: NodeId, replaced_with: Option<NodeId> },
}

/// A routing table as the contracts see it.
#[verifier::ext_equal]
pub struct TableView {
    pub local_id: NodeId,
    pub k: nat,
    pub buckets: Seq<BucketView>,
    pub metrics: DhtMetrics,
    pub clock: Clock,
}

/// A routing table. Whatever happens to it happens at a moment of its clock: a moment that it is
/// handed is one that this clock, or a copy of it, has read.
#[derive(Debug, Clone)]
pub struct RoutingTable {
    local_id: NodeId,
    k: usize,
    buckets: Vec<Bucket>,
    metrics: DhtMetrics,
    clock: Clock,
}

impl View for RoutingTable {
    type V = TableView;

    closed spec fn view(&self) -> TableView {
        TableView {
            local_id: self.local_id,
            k: self.k as nat,
            buckets: self.buckets@.map_values(|b: Bucket| b@),
            metrics: self.metrics,
            clock: self.clock,
        }
    }
}

impl TableView {
    /// There is a bucket for each bit of an identifier, each holds at most `k` nodes and `k`
    /// replacements, none twice, every node stands in the bucket of its distance, and in each
    /// bucket suspected nodes stand before active ones.
    pub open spec fn wf(self) -> bool {
        &&& 0 < self.k <= usize::MAX
        &&& self.buckets.len() == K_BUCKET_COUNT
        &&& forall|i: int|
            0 <= i < K_BUCKET_COUNT ==> (#[trigger] self.buckets[i]).wf(self.local_id, self.k, i)
    }

    /// The bucket of a node: none for the table's own.
    pub open spec fn bucket_for(self, node_id: NodeId) -> Option<u8> {
        id::bucket_of(id::xor_bytes(self.local_id@, node_id@))
    }

    /// Whether the table holds a node.
    pub open spec fn contains(self, node_id: NodeId) -> bool {
        match self.bucket_for(node_id) {
            Some(b) => contact::holds(self.buckets[b as int].nodes, node_id),
            None => false,
        }
    }

    /// The status of a node that the table holds.
    pub open spec fn status(self, node_id: NodeId) -> Option<NodeStatus> {
        match self.bucket_for(node_id) {
            Some(b) => {
                let nodes = self.buckets[b as int].nodes;
                match contact::position(nodes, node_id) {
                    Some(i) => Some(nodes[i].status),
                    None => None,
                }
            },
            None => None,
        }
    }

    /// The nodes that the table holds, bucket by bucket.
    pub open spec fn nodes(self) -> Seq<NodeId> {
        nodes_of(self.buckets)
    }

    /// Whether a bucket was last refreshed at least `stale_after` before `now`.
    pub open spec fn is_stale(self, b: int, now: Instant, stale_after: Duration) -> bool {
        now.since(self.buckets[b].last_refreshed).nanos >= stale_after.nanos
    }

    /// What becomes of a node that the table hears of.
    pub open spec fn insert_outcome(self, node_id: NodeId) -> InsertOutcome {
        match self.bucket_for(node_id) {
            None => InsertOutcome::IgnoredSelf,
            Some(b) => {
                let nodes = self.buckets[b as int].nodes;
                if contact::holds(nodes, node_id) {
                    InsertOutcome::AlreadyPresent { bucket_index: b }
                } else if nodes.len() >= self.k {
                    InsertOutcome::PendingPing {
                        bucket_index: b,
                        stale_node: nodes[0].node_id,
                        new_candidate: node_id,
                    }
                } else {
                    InsertOutcome::Inserted { bucket_index: b }
                }
            },
        }
    }

    /// What has to be done once the table heard of a node: ask the first node of a full bucket.
    pub open spec fn insert_actions(self, node_id: NodeId) -> Seq<RoutingAction> {
        match self.insert_outcome(node_id) {
            InsertOutcome::PendingPing { stale_node, .. } => seq![RoutingAction::Ping(stale_node)],
            _ => Seq::empty(),
        }
    }

    /// Whether the counters of this outcome can count once more.
    pub open spec fn can_count_insert(self, node_id: NodeId) -> bool {
        match self.insert_outcome(node_id) {
            InsertOutcome::Inserted { .. } => self.metrics.insert_inserted < u64::MAX,
            InsertOutcome::AlreadyPresent { .. } => self.metrics.insert_already_present < u64::MAX,
            InsertOutcome::PendingPing { .. } => self.metrics.insert_pending_ping < u64::MAX
                && self.metrics.actions_generated_ping < u64::MAX,
            InsertOutcome::IgnoredSelf => self.metrics.insert_ignored_self < u64::MAX,
        }
    }

    /// The table with one bucket changed.
    pub open spec fn with_bucket(self, b: u8, bucket: BucketView) -> TableView {
        TableView { buckets: self.buckets.update(b as int, bucket), ..self }
    }

    /// The table with its counters changed.
    pub open spec fn with_metrics(self, metrics: DhtMetrics) -> TableView {
        TableView { metrics, ..self }
    }

    /// The counters once the table heard of a node.
    pub open spec fn insert_metrics(self, node_id: NodeId) -> DhtMetrics {
        let m = self.metrics;
        match self.insert_outcome(node_id) {
            InsertOutcome::Inserted { .. } => DhtMetrics {
                insert_inserted: (m.insert_inserted + 1) as u64,
                ..m
            },
            InsertOutcome::AlreadyPresent { .. } => DhtMetrics {
                insert_already_present: (m.insert_already_present + 1) as u64,
                ..m
            },
            InsertOutcome::PendingPing { .. } => DhtMetrics {
                insert_pending_ping: (m.insert_pending_ping + 1) as u64,
                actions_generated_ping: (m.actions_generated_ping + 1) as u64,
                ..m
            },
            InsertOutcome::IgnoredSelf => DhtMetrics {
                insert_ignored_self: (m.insert_ignored_self + 1) as u64,
                ..m
            },
        }
    }

    /// The table once it heard of a node.
    pub open spec fn after_insert(self, node_id: NodeId, now: Instant) -> TableView {
        let counted = self.with_metrics(self.insert_metrics(node_id));
        match self.bucket_for(node_id) {
            None => counted,
            Some(b) => counted.with_bucket(
                b,
                self.buckets[b as int].after_insert(node_id, self.k, now),
            ),
        }
    }

    /// The table once a node answered.
    pub open spec fn after_answer(self, node_id: NodeId, now: Instant) -> TableView {
        let m = self.metrics;
        if self.contains(node_id) {
            let b = self.bucket_for(node_id)->0;
            self.with_metrics(
                DhtMetrics { mark_active_ok: (m.mark_active_ok + 1) as u64, ..m },
            ).with_bucket(b, self.buckets[b as int].after_answer(node_id, now))
        } else {
            self.with_metrics(
                DhtMetrics { mark_active_miss: (m.mark_active_miss + 1) as u64, ..m },
            )
        }
    }

    /// Whether the counter of an answer by this node can count once more.
    pub open spec fn can_count_answer(self, node_id: NodeId) -> bool {
        if self.contains(node_id) {
            self.metrics.mark_active_ok < u64::MAX
        } else {
            self.metrics.mark_active_miss < u64::MAX
        }
    }

    /// The table once a bucket was refreshed.
    pub open spec fn after_refresh(self, b: u8, now: Instant) -> TableView {
        let m = self.metrics;
        self.with_metrics(
            DhtMetrics { refresh_marked: (m.refresh_marked + 1) as u64, ..m },
        ).with_bucket(b, BucketView { last_refreshed: now, ..self.buckets[b as int] })
    }

    /// Whether the counters can count a reply of `len` nodes, whatever becomes of them.
    pub open spec fn can_count_batch(self, len: nat) -> bool {
        &&& self.metrics.nodes_found_batches < u64::MAX
        &&& self.metrics.nodes_found_nodes_total + len <= u64::MAX
        &&& self.metrics.insert_inserted + len <= u64::MAX
        &&& self.metrics.insert_already_present + len <= u64::MAX
        &&& self.metrics.insert_pending_ping + len <= u64::MAX
        &&& self.metrics.actions_generated_ping + len <= u64::MAX
        &&& self.metrics.insert_ignored_self + len <= u64::MAX
    }

    /// The table once a reply was counted, before its nodes are heard of.
    pub open spec fn batch_start(self) -> TableView {
        let m = self.metrics;
        self.with_metrics(
            DhtMetrics { nodes_found_batches: (m.nodes_found_batches + 1) as u64, ..m },
        )
    }

    /// The table once a node of a reply was counted.
    pub open spec fn count_found(self) -> TableView {
        let m = self.metrics;
        self.with_metrics(
            DhtMetrics { nodes_found_nodes_total: (m.nodes_found_nodes_total + 1) as u64, ..m },
        )
    }

    /// The table once it heard of nodes one after the other, each at its own moment.
    pub open spec fn after_batch(self, nodes: Seq<NodeId>, times: Seq<Instant>) -> TableView
        decreases nodes.len(),
    {
        if nodes.len() == 0 {
            self
        } else {
            self.after_batch(nodes.drop_last(), times.drop_last()).count_found().after_insert(
                nodes.last(),
                times.last(),
            )
        }
    }

    /// What has to be done once the table heard of nodes one after the other.
    pub open spec fn batch_actions(self, nodes: Seq<NodeId>, times: Seq<Instant>) -> Seq<
        RoutingAction,
    >
        decreases nodes.len(),
    {
        if nodes.len() == 0 {
            Seq::empty()
        } else {
            self.batch_actions(nodes.drop_last(), times.drop_last()) + self.after_batch(
                nodes.drop_last(),
                times.drop_last(),
            ).count_found().insert_actions(nodes.last())
        }
    }

    /// The table and the actions after a reply whose nodes were heard of at these moments.
    pub open spec fn is_batch(
        self,
        nodes: Seq<NodeId>,
        times: Seq<Instant>,
        after: TableView,
        actions: Seq<RoutingAction>,
    ) -> bool {
        &&& times.len() == nodes.len()
        &&& after == self.batch_start().after_batch(nodes, times)
        &&& actions == self.batch_start().batch_actions(nodes, times)
    }

    /// What becomes of a node that did not answer.
    pub open spec fn failure_outcome(self, node_id: NodeId) -> PingFailureOutcome {
        match self.status(node_id) {
            None => PingFailureOutcome::NotFound,
            Some(status) => {
                let bucket_index = self.bucket_for(node_id)->0;
                match status {
                    NodeStatus::Active => PingFailureOutcome::Suspected { bucket_index, node_id },
                    NodeStatus::Suspected => PingFailureOutcome::Evicted {
                        bucket_index,
                        node_id,
                        replaced_with: self.buckets[bucket_index as int].promoted(),
                    },
                }
            },
        }
    }

    /// The table once a node did not answer.
    pub open spec fn after_failure(self, node_id: NodeId, now: Instant) -> TableView {
        let m = self.metrics;
        match self.failure_outcome(node_id) {
            PingFailureOutcome::NotFound => self,
            PingFailureOutcome::Suspected { bucket_index, .. } => self.with_metrics(
                DhtMetrics { nodes_suspected: (m.nodes_suspected + 1) as u64, ..m },
            ).with_bucket(
                bucket_index,
                self.buckets[bucket_index as int].after_failure(node_id, now),
            ),
            PingFailureOutcome::Evicted { bucket_index, .. } => self.with_metrics(
                DhtMetrics { nodes_evicted: (m.nodes_evicted + 1) as u64, ..m },
            ).with_bucket(
                bucket_index,
                self.buckets[bucket_index as int].after_failure(node_id, now),
            ),
        }
    }

    /// Whether the counter of a failure of this node can count once more.
    pub open spec fn can_count_failure(self, node_id: NodeId) -> bool {
        match self.failure_outcome(node_id) {
            PingFailureOutcome::NotFound => true,
            PingFailureOutcome::Suspected { .. } => self.metrics.nodes_suspected < u64::MAX,
            PingFailureOutcome::Evicted { .. } => self.metrics.nodes_evicted < u64::MAX,
        }
    }

    /// Whether a candidate may take the place of a dead node: the table holds the dead node, both
    /// belong to one bucket, and that bucket does not wait for the dead node on behalf of another
    /// candidate.
    pub open spec fn can_replace(self, dead: NodeId, candidate: NodeId) -> bool {
        &&& self.contains(dead)
        &&& self.bucket_for(candidate) == self.bucket_for(dead)
        &&& {
            let bucket = self.buckets[self.bucket_for(dead)->0 as int];
            bucket.awaits(dead) ==> bucket.pending->0.new_candidate.node_id == candidate
        }
    }

    /// The table once it was told to put a candidate in the place of a dead node.
    pub open spec fn after_replace(self, dead: NodeId, candidate: NodeId, now: Instant) -> TableView {
        let m = self.metrics;
        if self.can_replace(dead, candidate) {
            let b = self.bucket_for(dead)->0;
            self.with_metrics(
                DhtMetrics { replace_stale_ok: (m.replace_stale_ok + 1) as u64, ..m },
            ).with_bucket(b, self.buckets[b as int].after_replace(dead, candidate, now))
        } else {
            self.with_metrics(
                DhtMetrics { replace_stale_miss: (m.replace_stale_miss + 1) as u64, ..m },
            )
        }
    }

    /// Whether the counter of this replacement can count once more.
    pub open spec fn can_count_replace(self, dead: NodeId, candidate: NodeId) -> bool {
        if self.can_replace(dead, candidate) {
            self.metrics.replace_stale_ok < u64::MAX
        } else {
            self.metrics.replace_stale_miss < u64::MAX
        }
    }
}

/// The nodes in some buckets, in order.
pub open spec fn nodes_of(buckets: Seq<BucketView>) -> Seq<NodeId>
    decreases buckets.len(),
{
    if buckets.len() == 0 {
        Seq::empty()
    } else {
        nodes_of(buckets.drop_last()) + contact::ids(buckets.last().nodes)
    }
}

/// How many of some buckets hold a node.
pub open spec fn non_empty(buckets: Seq<BucketView>) -> nat
    decreases buckets.len(),
{
    if buckets.len() == 0 {
        0
    } else {
        non_empty(buckets.drop_last()) + if buckets.last().nodes.len() > 0 {
            1nat
        } else {
            0
        }
    }
}

/// The first `n` buckets hold just the nodes that belong to one of them and stand in it.
proof fn lemma_nodes_of(table: TableView, n: int, node_id: NodeId)
    requires
        table.wf(),
        0 <= n <= K_BUCKET_COUNT,
    ensures
        nodes_of(table.buckets.take(n)).contains(node_id) <==> table.contains(node_id)
            && table.bucket_for(node_id)->0 < n,
    decreases n,
{
    let first = table.buckets.take(n);
    if n > 0 {
        let last = table.buckets[n - 1].nodes;
        assert(first.drop_last() =~= table.buckets.take(n - 1));
        lemma_nodes_of(table, n - 1, node_id);
        assert(table.buckets[n - 1].wf(table.local_id, table.k, n - 1));
        contact::lemma_position(last, node_id);
        let before = nodes_of(first.drop_last());
        let all = nodes_of(first);
        assert(all == before + contact::ids(last));
        if all.contains(node_id) {
            let w = choose|w: int| 0 <= w < all.len() && all[w] == node_id;
            if w < before.len() {
                assert(before[w] == node_id);
            } else {
                assert(last[w - before.len()].node_id == node_id);
            }
        }
        if before.contains(node_id) {
            let w = choose|w: int| 0 <= w < before.len() && before[w] == node_id;
            assert(all[w] == node_id);
        }
        if contact::holds(last, node_id) {
            let w = contact::position(last, node_id)->0;
            assert(all[before.len() + w] == contact::ids(last)[w]);
        }
    }
}

/// The listed nodes of a table are just those that it holds, and none is listed twice.
pub proof fn law_nodes_are_those_held(table: TableView)
    requires
        table.wf(),
    ensures
        forall|node_id: NodeId| #[trigger]
            table.nodes().contains(node_id) <==> table.contains(node_id),
        table.nodes().no_duplicates(),
        table.nodes().len() <= K_BUCKET_COUNT * table.k,
{
    assert(table.buckets.take(K_BUCKET_COUNT as int) =~= table.buckets);
    assert forall|node_id: NodeId| #[trigger]
        table.nodes().contains(node_id) <==> table.contains(node_id) by {
        lemma_nodes_of(table, K_BUCKET_COUNT as int, node_id);
    }
    lemma_nodes_distinct(table, K_BUCKET_COUNT as int);
}

/// No node is listed twice in the first `n` buckets, and at most `k` are listed in each.
proof fn lemma_nodes_distinct(table: TableView, n: int)
    requires
        table.wf(),
        0 <= n <= K_BUCKET_COUNT,
    ensures
        nodes_of(table.buckets.take(n)).no_duplicates(),
        nodes_of(table.buckets.take(n)).len() <= n * table.k,
    decreases n,
{
    let first = table.buckets.take(n);
    if n > 0 {
        let last = table.buckets[n - 1].nodes;
        assert(first.drop_last() =~= table.buckets.take(n - 1));
        lemma_nodes_distinct(table, n - 1);
        assert(table.buckets[n - 1].wf(table.local_id, table.k, n - 1));
        let before = nodes_of(first.drop_last());
        let all = nodes_of(first);
        assert forall|i: int, j: int| 0 <= i < j < all.len() implies all[i] != all[j] by {
            if i < before.len() && j >= before.len() {
                lemma_nodes_of(table, n - 1, all[i]);
                assert(before[i] == all[i]);
                assert(before.contains(all[i]));
                assert(last[j - before.len()].node_id == all[j]);
            } else if j < before.len() {
                assert(before[i] != before[j]);
            } else {
                assert(last[i - before.len()].node_id != last[j - before.len()].node_id);
            }
        }
        assert(n * table.k == (n - 1) * table.k + table.k) by (nonlinear_arith);
    } else {
        assert(n * table.k == 0) by (nonlinear_arith)
            requires
                n == 0,
        ;
    }
}

/// The first buckets do not list more nodes than all of them.
proof fn lemma_nodes_grow(buckets: Seq<BucketView>, n: int)
    requires
        0 <= n <= buckets.len(),
    ensures
        nodes_of(buckets.take(n)).len() <= nodes_of(buckets).len(),
    decreases buckets.len(),
{
    if n == buckets.len() {
        assert(buckets.take(n) =~= buckets);
    } else {
        lemma_nodes_grow(buckets.drop_last(), n);
        assert(buckets.drop_last().take(n) =~= buckets.take(n));
    }
}

impl RoutingTable {
    /// An empty table of buckets for `k` nodes each, around the node `local_id`, with a clock of its
    /// own.
    pub fn new(local_id: NodeId, k: usize) -> (table: RoutingTable)
        requires
            k > 0,
        ensures
            table@.wf(),
            table@.local_id == local_id,
            table@.k == k,
            table@.metrics == DhtMetrics::zero(),
            forall|i: int|
                0 <= i < K_BUCKET_COUNT ==> (#[trigger] table@.buckets[i]) == BucketView::empty(
                    table@.buckets[i].last_refreshed,
                ) && table@.clock.reads(table@.buckets[i].last_refreshed),
    {
        RoutingTable::with_clock(local_id, k, Clock::start())
    }

    /// An empty table of buckets for `k` nodes each, around the node `local_id`, that goes by the
    /// clock `clock`. Tables with one clock can be handed the same moments.
    pub fn with_clock(local_id: NodeId, k: usize, clock: Clock) -> (table: RoutingTable)
        requires
            k > 0,
        ensures
            table@.wf(),
            table@.local_id == local_id,
            table@.k == k,
            table@.metrics == DhtMetrics::zero(),
            table@.clock == clock,
            forall|i: int|
                0 <= i < K_BUCKET_COUNT ==> (#[trigger] table@.buckets[i]) == BucketView::empty(
                    table@.buckets[i].last_refreshed,
                ) && clock.reads(table@.buckets[i].last_refreshed),
    {
        let mut buckets: Vec<Bucket> = Vec::with_capacity(K_BUCKET_COUNT);
        let mut i: usize = 0;
        while i < K_BUCKET_COUNT
            invariant
                i <= K_BUCKET_COUNT,
                buckets@.len() == i,
                forall|j: int|
                    0 <= j < i ==> (#[trigger] buckets@[j])@ == BucketView::empty(
                        buckets@[j].last_refreshed,
                    ) && clock.reads(buckets@[j].last_refreshed),
            decreases K_BUCKET_COUNT - i,
        {
            buckets.push(Bucket::new(clock.now()));
            i = i + 1;
        }
        RoutingTable { local_id, k, buckets, metrics: DhtMetrics::default(), clock }
    }

    /// The identifier of the table's own node.
    pub fn local_id(&self) -> (local_id: NodeId)
        ensures
            local_id == self@.local_id,
    {
        self.local_id
    }

    /// How many nodes a bucket holds at most.
    pub fn k(&self) -> (k: usize)
        ensures
            k == self@.k,
    {
        self.k
    }

    /// The clock that the table goes by.
    pub fn clock(&self) -> (clock: Clock)
        ensures
            clock == self@.clock,
    {
        self.clock
    }

    /// The present moment by the table's clock. Which moment that is depends on when it is asked.
    pub fn now(&self) -> (now: Instant)
        ensures
            self@.clock.reads(now),
    {
        self.clock.now()
    }

    /// The bucket of a node: none for the table's own.
    pub fn bucket_index_for(&self, node_id: &NodeId) -> (bucket: Option<u8>)
        ensures
            bucket == self@.bucket_for(*node_id),
    {
        self.local_id.bucket_index(node_id)
    }

    /// Hears of a node at the moment `now`.
    pub fn insert_at(&mut self, node_id: NodeId, now: Instant) -> (result: RoutingResult<
        InsertOutcome,
    >)
        requires
            old(self)@.wf(),
            old(self)@.can_count_insert(node_id),
        ensures
            final(self)@.wf(),
            final(self)@ == old(self)@.after_insert(node_id, now),
            result.value == old(self)@.insert_outcome(node_id),
            result.actions@ == old(self)@.insert_actions(node_id),
    {
        let bucket_index = match self.bucket_index_for(&node_id) {
            Some(bucket_index) => bucket_index,
            None => {
                self.metrics.insert_ignored_self = self.metrics.insert_ignored_self + 1;
                return RoutingResult { value: InsertOutcome::IgnoredSelf, actions: Vec::new() };
            },
        };
        let b: usize = bucket_index as usize;
        assert(self@.buckets[b as int].wf(self@.local_id, self@.k, b as int));
        proof {
            bucket::lemma_insert_wf(
                self@.buckets[b as int],
                self@.local_id,
                self@.k,
                b as int,
                node_id,
                now,
            );
        }
        let k: usize = self.k;
        let held = contact::find(&self.buckets[b].nodes, &node_id).is_some();
        let stale = self.buckets[b].insert(node_id, k, now);
        assert(self@.buckets =~= old(self)@.after_insert(node_id, now).buckets);
        match stale {
            Some(stale_node) => {
                self.metrics.insert_pending_ping = self.metrics.insert_pending_ping + 1;
                self.metrics.actions_generated_ping = self.metrics.actions_generated_ping + 1;
                RoutingResult {
                    value: InsertOutcome::PendingPing {
                        bucket_index,
                        stale_node,
                        new_candidate: node_id,
                    },
                    actions: vec![RoutingAction::Ping(stale_node)],
                }
            },
            None => {
                if held {
                    self.metrics.insert_already_present = self.metrics.insert_already_present + 1;
                    RoutingResult {
                        value: InsertOutcome::AlreadyPresent { bucket_index },
                        actions: Vec::new(),
                    }
                } else {
                    self.metrics.insert_inserted = self.metrics.insert_inserted + 1;
                    RoutingResult {
                        value: InsertOutcome::Inserted { bucket_index },
                        actions: Vec::new(),
                    }
                }
            },
        }
    }

    /// Hears of a node.
    pub fn insert_with_actions(&mut self, node_id: NodeId) -> (result: RoutingResult<InsertOutcome>)
        requires
            old(self)@.wf(),
            old(self)@.can_count_insert(node_id),
        ensures
            final(self)@.wf(),
            exists|now: Instant|
                old(self)@.clock.reads(now) && final(self)@ == #[trigger] old(self)@.after_insert(node_id, now),
            result.value == old(self)@.insert_outcome(node_id),
            result.actions@ == old(self)@.insert_actions(node_id),
    {
        let now = self.now();
        self.insert_at(node_id, now)
    }

    /// Hears of a node. Returns what became of it, and leaves out what has to be done.
    pub fn insert(&mut self, node_id: NodeId) -> (outcome: InsertOutcome)
        requires
            old(self)@.wf(),
            old(self)@.can_count_insert(node_id),
        ensures
            final(self)@.wf(),
            exists|now: Instant|
                old(self)@.clock.reads(now) && final(self)@ == #[trigger] old(self)@.after_insert(node_id, now),
            outcome == old(self)@.insert_outcome(node_id),
    {
        self.insert_with_actions(node_id).value
    }

    /// Hears from a node, at the moment `now`, that it lives. Returns whether the table holds it.
    pub fn mark_active_at(&mut self, node_id: NodeId, now: Instant) -> (result: RoutingResult<bool>)
        requires
            old(self)@.wf(),
            old(self)@.can_count_answer(node_id),
        ensures
            final(self)@.wf(),
            final(self)@ == old(self)@.after_answer(node_id, now),
            result.value == old(self)@.contains(node_id),
            result.actions@ == Seq::<RoutingAction>::empty(),
    {
        let mut held = false;
        if let Some(bucket_index) = self.bucket_index_for(&node_id) {
            let b: usize = bucket_index as usize;
            assert(self@.buckets[b as int].wf(self@.local_id, self@.k, b as int));
            held = self.buckets[b].answer(node_id, now);
            proof {
                if held {
                    bucket::lemma_answer_wf(
                        old(self)@.buckets[b as int],
                        old(self)@.local_id,
                        old(self)@.k,
                        b as int,
                        node_id,
                        now,
                    );
                }
                assert(self@.buckets =~= old(self)@.after_answer(node_id, now).buckets);
            }
        }
        if held {
            self.metrics.mark_active_ok = self.metrics.mark_active_ok + 1;
        } else {
            self.metrics.mark_active_miss = self.metrics.mark_active_miss + 1;
        }
        RoutingResult { value: held, actions: Vec::new() }
    }

    /// Hears from a node that it lives. Returns whether the table holds it.
    pub fn mark_active_with_actions(&mut self, node_id: NodeId) -> (result: RoutingResult<bool>)
        requires
            old(self)@.wf(),
            old(self)@.can_count_answer(node_id),
        ensures
            final(self)@.wf(),
            exists|now: Instant|
                old(self)@.clock.reads(now) && final(self)@ == #[trigger] old(self)@.after_answer(node_id, now),
            result.value == old(self)@.contains(node_id),
            result.actions@ == Seq::<RoutingAction>::empty(),
    {
        let now = self.now();
        self.mark_active_at(node_id, now)
    }

    /// Hears from a node that it lives. Returns whether the table holds it.
    pub fn mark_active(&mut self, node_id: NodeId) -> (held: bool)
        requires
            old(self)@.wf(),
            old(self)@.can_count_answer(node_id),
        ensures
            final(self)@.wf(),
            exists|now: Instant|
                old(self)@.clock.reads(now) && final(self)@ == #[trigger] old(self)@.after_answer(node_id, now),
            held == old(self)@.contains(node_id),
    {
        self.mark_active_with_actions(node_id).value
    }

    /// Learns, at the moment `now`, that a node did not answer.
    pub fn process_ping_failure_at(&mut self, node_id: NodeId, now: Instant) -> (outcome:
        PingFailureOutcome)
        requires
            old(self)@.wf(),
            old(self)@.can_count_failure(node_id),
        ensures
            final(self)@.wf(),
            final(self)@ == old(self)@.after_failure(node_id, now),
            outcome == old(self)@.failure_outcome(node_id),
    {
        let bucket_index = match self.bucket_index_for(&node_id) {
            Some(bucket_index) => bucket_index,
            None => {
                return PingFailureOutcome::NotFound;
            },
        };
        let b: usize = bucket_index as usize;
        assert(self@.buckets[b as int].wf(self@.local_id, self@.k, b as int));
        let failed = self.buckets[b].fail(node_id, now);
        proof {
            if failed is Some {
                bucket::lemma_failure_wf(
                    old(self)@.buckets[b as int],
                    old(self)@.local_id,
                    old(self)@.k,
                    b as int,
                    node_id,
                    now,
                );
            }
            assert(self@.buckets =~= old(self)@.after_failure(node_id, now).buckets);
        }
        match failed {
            None => PingFailureOutcome::NotFound,
            Some((failed, replaced_with)) => match failed.status {
                NodeStatus::Active => {
                    self.metrics.nodes_suspected = self.metrics.nodes_suspected + 1;
                    PingFailureOutcome::Suspected { bucket_index, node_id }
                },
                NodeStatus::Suspected => {
                    self.metrics.nodes_evicted = self.metrics.nodes_evicted + 1;
                    PingFailureOutcome::Evicted { bucket_index, node_id, replaced_with }
                },
            },
        }
    }

    /// Learns that a node did not answer.
    pub fn process_ping_failure(&mut self, node_id: NodeId) -> (outcome: PingFailureOutcome)
        requires
            old(self)@.wf(),
            old(self)@.can_count_failure(node_id),
        ensures
            final(self)@.wf(),
            exists|now: Instant|
                old(self)@.clock.reads(now) && final(self)@ == #[trigger] old(self)@.after_failure(node_id, now),
            outcome == old(self)@.failure_outcome(node_id),
    {
        let now = self.now();
        self.process_ping_failure_at(node_id, now)
    }

    /// Puts a candidate, at the moment `now`, in the place of a dead node. Returns whether it did.
    pub fn replace_stale_at(
        &mut self,
        dead_node: NodeId,
        new_candidate: NodeId,
        now: Instant,
    ) -> (result: RoutingResult<bool>)
        requires
            old(self)@.wf(),
            old(self)@.can_count_replace(dead_node, new_candidate),
        ensures
            final(self)@.wf(),
            final(self)@ == old(self)@.after_replace(dead_node, new_candidate, now),
            result.value == old(self)@.can_replace(dead_node, new_candidate),
            result.actions@ == Seq::<RoutingAction>::empty(),
    {
        let mut done = false;
        if let Some(bucket_index) = self.bucket_index_for(&dead_node) {
            let b: usize = bucket_index as usize;
            assert(self@.buckets[b as int].wf(self@.local_id, self@.k, b as int));
            let same_bucket = match self.bucket_index_for(&new_candidate) {
                Some(other_index) => other_index == bucket_index,
                None => false,
            };
            if same_bucket {
                done = self.buckets[b].replace(dead_node, new_candidate, now);
                proof {
                    if done {
                        bucket::lemma_replace_wf(
                            old(self)@.buckets[b as int],
                            old(self)@.local_id,
                            old(self)@.k,
                            b as int,
                            dead_node,
                            new_candidate,
                            now,
                        );
                    }
                }
            }
            assert(self@.buckets =~= old(self)@.after_replace(
                dead_node,
                new_candidate,
                now,
            ).buckets);
        }
        if done {
            self.metrics.replace_stale_ok = self.metrics.replace_stale_ok + 1;
        } else {
            self.metrics.replace_stale_miss = self.metrics.replace_stale_miss + 1;
        }
        RoutingResult { value: done, actions: Vec::new() }
    }

    /// Puts a candidate in the place of a dead node. Returns whether it did.
    pub fn replace_stale_with_actions(&mut self, dead_node: NodeId, new_candidate: NodeId) -> (result:
        RoutingResult<bool>)
        requires
            old(self)@.wf(),
            old(self)@.can_count_replace(dead_node, new_candidate),
        ensures
            final(self)@.wf(),
            exists|now: Instant|
                old(self)@.clock.reads(now) && final(self)@ == #[trigger] old(self)@.after_replace(dead_node, new_candidate, now),
            result.value == old(self)@.can_replace(dead_node, new_candidate),
            result.actions@ == Seq::<RoutingAction>::empty(),
    {
        let now = self.now();
        self.replace_stale_at(dead_node, new_candidate, now)
    }

    /// Puts a candidate in the place of a dead node. Returns whether it did.
    pub fn replace_stale(&mut self, dead_node: NodeId, new_candidate: NodeId) -> (done: bool)
        requires
            old(self)@.wf(),
            old(self)@.can_count_replace(dead_node, new_candidate),
        ensures
            final(self)@.wf(),
            exists|now: Instant|
                old(self)@.clock.reads(now) && final(self)@ == #[trigger] old(self)@.after_replace(dead_node, new_candidate, now),
            done == old(self)@.can_replace(dead_node, new_candidate),
    {
        self.replace_stale_with_actions(dead_node, new_candidate).value
    }

    /// How many nodes a bucket holds.
    pub fn bucket_len(&self, bucket_index: u8) -> (len: usize)
        requires
            self@.wf(),
        ensures
            len == self@.buckets[bucket_index as int].nodes.len(),
    {
        self.buckets[bucket_index as usize].nodes.len()
    }

    /// The nodes of a bucket, least recently heard of first.
    pub fn bucket_nodes(&self, bucket_index: u8) -> (nodes: Vec<NodeId>)
        requires
            self@.wf(),
        ensures
            nodes@ == contact::ids(self@.buckets[bucket_index as int].nodes),
    {
        let bucket = &self.buckets[bucket_index as usize];
        let len: usize = bucket.nodes.len();
        let mut nodes: Vec<NodeId> = Vec::new();
        let mut i: usize = 0;
        while i < len
            invariant
                i <= len,
                len == bucket.nodes@.len(),
                nodes@ == contact::ids(bucket.nodes@.take(i as int)),
            decreases len - i,
        {
            nodes.push(bucket.nodes[i].node_id);
            i = i + 1;
            assert(nodes@ =~= contact::ids(bucket.nodes@.take(i as int)));
        }
        assert(bucket.nodes@.take(i as int) =~= bucket.nodes@);
        nodes
    }

    /// The status of a node that the table holds.
    pub fn node_status(&self, node_id: NodeId) -> (status: Option<NodeStatus>)
        requires
            self@.wf(),
        ensures
            status == self@.status(node_id),
    {
        match self.bucket_index_for(&node_id) {
            Some(bucket_index) => {
                let bucket = &self.buckets[bucket_index as usize];
                match contact::find(&bucket.nodes, &node_id) {
                    Some(at) => Some(bucket.nodes[at].status),
                    None => None,
                }
            },
            None => None,
        }
    }

    /// The `limit` nodes closest to a target, nearest first.
    pub fn find_closest_nodes(&self, target: NodeId, limit: usize) -> (closest: Vec<NodeId>)
        requires
            self@.wf(),
        ensures
            closest::is_closest(closest@, self@.nodes(), target, limit as nat),
    {
        let mut picked: Vec<NodeId> = Vec::new();
        if limit == 0 {
            return picked;
        }
        let ghost table = self@;
        let mut i: usize = 0;
        while i < K_BUCKET_COUNT
            invariant
                i <= K_BUCKET_COUNT,
                limit > 0,
                table == self@,
                table.wf(),
                closest::is_closest(picked@, nodes_of(table.buckets.take(i as int)), target, limit as nat),
            decreases K_BUCKET_COUNT - i,
        {
            let bucket = &self.buckets[i];
            let len: usize = bucket.nodes.len();
            let mut j: usize = 0;
            let ghost before = nodes_of(table.buckets.take(i as int));
            let ghost mut seen = before;
            assert(bucket@ == table.buckets[i as int]);
            while j < len
                invariant
                    i < K_BUCKET_COUNT,
                    limit > 0,
                    table.wf(),
                    j <= len,
                    len == bucket.nodes@.len(),
                    bucket@ == table.buckets[i as int],
                    before == nodes_of(table.buckets.take(i as int)),
                    seen == before + contact::ids(bucket.nodes@.take(j as int)),
                    closest::is_closest(picked@, seen, target, limit as nat),
                decreases len - j,
            {
                let node = bucket.nodes[j].node_id;
                proof {
                    assert(table.buckets[i as int].wf(table.local_id, table.k, i as int));
                    lemma_nodes_of(table, i as int, node);
                    assert(bucket.nodes@[j as int].node_id == node);
                    if seen.contains(node) {
                        let w = choose|w: int| 0 <= w < seen.len() && seen[w] == node;
                        if w < before.len() {
                            assert(before[w] == node);
                            assert(before.contains(node));
                        } else {
                            assert(bucket.nodes@[w - before.len()].node_id == node);
                        }
                    }
                }
                pick(&mut picked, node, &target, limit, Ghost(seen));
                j = j + 1;
                proof {
                    seen = seen.push(node);
                    assert(seen =~= before + contact::ids(bucket.nodes@.take(j as int)));
                }
            }
            i = i + 1;
            proof {
                assert(table.buckets.take(i as int).drop_last() =~= table.buckets.take(i - 1));
                assert(bucket.nodes@.take(len as int) =~= table.buckets[i - 1].nodes);
            }
        }
        assert(table.buckets.take(i as int) =~= table.buckets);
        picked
    }

    /// The `k` nodes closest to a target, nearest first.
    pub fn lookup(&self, target: NodeId) -> (closest: Vec<NodeId>)
        requires
            self@.wf(),
        ensures
            closest::is_closest(closest@, self@.nodes(), target, self@.k),
    {
        self.find_closest_nodes(target, self.k)
    }

    /// The `k` nodes closest to a target, nearest first; the query is counted.
    pub fn lookup_with_metrics(&mut self, target: NodeId) -> (closest: Vec<NodeId>)
        requires
            old(self)@.wf(),
            old(self)@.metrics.lookup_queries < u64::MAX,
        ensures
            final(self)@.wf(),
            final(self)@ == old(self)@.with_metrics(
                DhtMetrics {
                    lookup_queries: (old(self)@.metrics.lookup_queries + 1) as u64,
                    ..old(self)@.metrics
                },
            ),
            closest::is_closest(closest@, old(self)@.nodes(), target, old(self)@.k),
    {
        self.metrics.lookup_queries = self.metrics.lookup_queries + 1;
        self.find_closest_nodes(target, self.k)
    }

    /// Notes that a bucket was refreshed at the moment `now`.
    pub fn mark_bucket_refreshed_at(&mut self, bucket_index: u8, now: Instant)
        requires
            old(self)@.wf(),
            old(self)@.metrics.refresh_marked < u64::MAX,
        ensures
            final(self)@.wf(),
            final(self)@ == old(self)@.after_refresh(bucket_index, now),
    {
        let b: usize = bucket_index as usize;
        assert(self@.buckets[b as int].wf(self@.local_id, self@.k, b as int));
        self.buckets[b].last_refreshed = now;
        self.metrics.refresh_marked = self.metrics.refresh_marked + 1;
        assert(self@.buckets =~= old(self)@.after_refresh(bucket_index, now).buckets);
    }

    /// Notes that a bucket was refreshed.
    pub fn mark_bucket_refreshed(&mut self, bucket_index: u8)
        requires
            old(self)@.wf(),
            old(self)@.metrics.refresh_marked < u64::MAX,
        ensures
            final(self)@.wf(),
            exists|now: Instant|
                old(self)@.clock.reads(now) && final(self)@ == #[trigger] old(self)@.after_refresh(bucket_index, now),
    {
        let now = self.now();
        self.mark_bucket_refreshed_at(bucket_index, now)
    }

    /// Of the buckets that were not refreshed for `stale_after`, the one refreshed longest ago,
    /// and the first of those where there are several. The buckets were refreshed at moments of the
    /// table's clock, and `now` has to be one: what [`RoutingTable::now`] gives, or another copy of
    /// the clock, or [`Clock::moment_of`] of a reading that was made elsewhere.
    pub fn get_least_recently_refreshed_bucket_index(&self, now: Instant, stale_after: Duration) -> (
    oldest: Option<u8>)
        requires
            self@.wf(),
        ensures
            match oldest {
                None => forall|b: int|
                    0 <= b < K_BUCKET_COUNT ==> !#[trigger] self@.is_stale(b, now, stale_after),
                Some(first) => {
                    &&& self@.is_stale(first as int, now, stale_after)
                    &&& forall|b: int|
                        0 <= b < K_BUCKET_COUNT && #[trigger] self@.is_stale(b, now, stale_after)
                            ==> {
                            let age = self@.buckets[first as int].last_refreshed.nanos;
                            let other = self@.buckets[b].last_refreshed.nanos;
                            age <= other && (b < first ==> age < other)
                        }
                },
            },
    {
        let mut oldest_index: Option<u8> = None;
        let mut oldest_instant = now;
        let mut i: usize = 0;
        while i < K_BUCKET_COUNT
            invariant
                i <= K_BUCKET_COUNT,
                self@.wf(),
                match oldest_index {
                    None => forall|b: int|
                        0 <= b < i ==> !#[trigger] self@.is_stale(b, now, stale_after),
                    Some(first) => {
                        &&& first < i
                        &&& self@.is_stale(first as int, now, stale_after)
                        &&& oldest_instant == self@.buckets[first as int].last_refreshed
                        &&& forall|b: int|
                            0 <= b < i && #[trigger] self@.is_stale(b, now, stale_after) ==> {
                                let age = self@.buckets[first as int].last_refreshed.nanos;
                                let other = self@.buckets[b].last_refreshed.nanos;
                                age <= other && (b < first ==> age < other)
                            }
                    },
                },
            decreases K_BUCKET_COUNT - i,
        {
            let last_refreshed = self.buckets[i].last_refreshed;
            let age = now.saturating_duration_since(last_refreshed);
            assert(self@.buckets[i as int].last_refreshed == last_refreshed);
            assert(self@.is_stale(i as int, now, stale_after) == (age.nanos >= stale_after.nanos));
            if age.nanos >= stale_after.nanos {
                if oldest_index.is_none() || last_refreshed.nanos < oldest_instant.nanos {
                    oldest_index = Some(i as u8);
                    oldest_instant = last_refreshed;
                }
            }
            i = i + 1;
        }
        oldest_index
    }

    /// Hears of the nodes in a reply. Returns what has to be done, in order.
    pub fn nodes_found_received(&mut self, nodes: Vec<NodeId>) -> (actions: Vec<RoutingAction>)
        requires
            old(self)@.wf(),
            old(self)@.can_count_batch(nodes@.len()),
        ensures
            final(self)@.wf(),
            exists|times: Seq<Instant>| #[trigger]
                old(self)@.is_batch(nodes@, times, final(self)@, actions@) && forall|i: int|
                    0 <= i < times.len() ==> old(self)@.clock.reads(#[trigger] times[i]),
    {
        self.metrics.nodes_found_batches = self.metrics.nodes_found_batches + 1;
        let ghost start = self@;
        let ghost mut times: Seq<Instant> = Seq::empty();
        let mut actions: Vec<RoutingAction> = Vec::new();
        let len: usize = nodes.len();
        let mut i: usize = 0;
        while i < len
            invariant
                i <= len,
                len == nodes@.len(),
                self@.wf(),
                start.wf(),
                times.len() == i,
                self@.clock == old(self)@.clock,
                forall|j: int| 0 <= j < i ==> old(self)@.clock.reads(#[trigger] times[j]),
                start == old(self)@.batch_start(),
                old(self)@.can_count_batch(nodes@.len()),
                self@ == start.after_batch(nodes@.take(i as int), times),
                actions@ == start.batch_actions(nodes@.take(i as int), times),
                self@.metrics.counted_since(start.metrics, i as nat),
            decreases len - i,
        {
            let node = nodes[i];
            let now = self.now();
            self.metrics.nodes_found_nodes_total = self.metrics.nodes_found_nodes_total + 1;
            let result = self.insert_at(node, now);
            let ghost before = actions@;
            let mut new_actions = result.actions;
            actions.append(&mut new_actions);
            i = i + 1;
            proof {
                let earlier = times;
                times = times.push(now);
                assert(nodes@.take(i as int).drop_last() =~= nodes@.take(i - 1));
                assert(times.drop_last() =~= earlier);
            }
        }
        assert(nodes@.take(i as int) =~= nodes@);
        assert(old(self)@.is_batch(nodes@, times, self@, actions@));
        actions
    }

    /// Counts an action that was generated.
    pub fn record_action_generated(&mut self, action: RoutingAction)
        requires
            match action {
                RoutingAction::Ping(_) => old(self)@.metrics.actions_generated_ping < u64::MAX,
                RoutingAction::Lookup(_) => old(self)@.metrics.actions_generated_lookup < u64::MAX,
            },
        ensures
            final(self)@ == old(self)@.with_metrics(
                match action {
                    RoutingAction::Ping(_) => DhtMetrics {
                        actions_generated_ping: (old(self)@.metrics.actions_generated_ping
                            + 1) as u64,
                        ..old(self)@.metrics
                    },
                    RoutingAction::Lookup(_) => DhtMetrics {
                        actions_generated_lookup: (old(self)@.metrics.actions_generated_lookup
                            + 1) as u64,
                        ..old(self)@.metrics
                    },
                },
            ),
    {
        match action {
            RoutingAction::Ping(_) => {
                self.metrics.actions_generated_ping = self.metrics.actions_generated_ping + 1;
            },
            RoutingAction::Lookup(_) => {
                self.metrics.actions_generated_lookup = self.metrics.actions_generated_lookup + 1;
            },
        }
    }

    /// Counts a value that was found.
    pub fn record_value_lookup_hit(&mut self)
        requires
            old(self)@.metrics.value_lookup_hit < u64::MAX,
        ensures
            final(self)@ == old(self)@.with_metrics(
                DhtMetrics {
                    value_lookup_hit: (old(self)@.metrics.value_lookup_hit + 1) as u64,
                    ..old(self)@.metrics
                },
            ),
    {
        self.metrics.value_lookup_hit = self.metrics.value_lookup_hit + 1;
    }

    /// Counts a value that was not found.
    pub fn record_value_lookup_miss(&mut self)
        requires
            old(self)@.metrics.value_lookup_miss < u64::MAX,
        ensures
            final(self)@ == old(self)@.with_metrics(
                DhtMetrics {
                    value_lookup_miss: (old(self)@.metrics.value_lookup_miss + 1) as u64,
                    ..old(self)@.metrics
                },
            ),
    {
        self.metrics.value_lookup_miss = self.metrics.value_lookup_miss + 1;
    }

    /// Counts a provider record that was received.
    pub fn record_store_provider_received(&mut self)
        requires
            old(self)@.metrics.store_provider_received < u64::MAX,
        ensures
            final(self)@ == old(self)@.with_metrics(
                DhtMetrics {
                    store_provider_received: (old(self)@.metrics.store_provider_received
                        + 1) as u64,
                    ..old(self)@.metrics
                },
            ),
    {
        self.metrics.store_provider_received = self.metrics.store_provider_received + 1;
    }

    /// The counters, and how full the table is.
    pub fn metrics_snapshot(&self) -> (snapshot: DhtMetricsSnapshot)
        requires
            self@.wf(),
            self@.nodes().len() <= usize::MAX,
        ensures
            snapshot.metrics == self@.metrics,
            snapshot.total_nodes == self@.nodes().len(),
            snapshot.non_empty_buckets == non_empty(self@.buckets),
            snapshot.bucket_occupancy@ == self@.buckets.map_values(
                |b: BucketView| b.nodes.len() as usize,
            ),
            forall|b: int|
                0 <= b < K_BUCKET_COUNT ==> (#[trigger] self@.buckets[b]).nodes.len()
                    <= snapshot.max_bucket_len,
            exists|b: int|
                0 <= b < K_BUCKET_COUNT && (#[trigger] self@.buckets[b]).nodes.len()
                    == snapshot.max_bucket_len,
    {
        let mut total_nodes: usize = 0;
        let mut non_empty_buckets: usize = 0;
        let mut max_bucket_len: usize = 0;
        let mut bucket_occupancy: Vec<usize> = Vec::with_capacity(K_BUCKET_COUNT);
        let ghost buckets = self@.buckets;
        let mut i: usize = 0;
        while i < K_BUCKET_COUNT
            invariant
                i <= K_BUCKET_COUNT,
                self@.wf(),
                buckets == self@.buckets,
                nodes_of(buckets).len() <= usize::MAX,
                total_nodes == nodes_of(buckets.take(i as int)).len(),
                non_empty_buckets == non_empty(buckets.take(i as int)),
                non_empty_buckets <= i,
                bucket_occupancy@.len() == i,
                forall|b: int|
                    0 <= b < i ==> bucket_occupancy@[b] == (#[trigger] buckets[b]).nodes.len(),
                forall|b: int| 0 <= b < i ==> (#[trigger] buckets[b]).nodes.len() <= max_bucket_len,
                i > 0 ==> exists|b: int|
                    0 <= b < i && (#[trigger] buckets[b]).nodes.len() == max_bucket_len,
                i == 0 ==> max_bucket_len == 0,
            decreases K_BUCKET_COUNT - i,
        {
            let len: usize = self.buckets[i].nodes.len();
            proof {
                assert(buckets[i as int].nodes.len() == len);
                assert(buckets.take(i + 1).drop_last() =~= buckets.take(i as int));
                assert(buckets.take(i + 1).last() == buckets[i as int]);
                lemma_nodes_grow(buckets, i + 1);
            }
            bucket_occupancy.push(len);
            total_nodes = total_nodes + len;
            if len > 0 {
                non_empty_buckets = non_empty_buckets + 1;
            }
            if len > max_bucket_len {
                max_bucket_len = len;
            }
            i = i + 1;
        }
        assert(buckets.take(i as int) =~= buckets);
        DhtMetricsSnapshot {
            metrics: self.metrics,
            total_nodes,
            non_empty_buckets,
            max_bucket_len,
            bucket_occupancy,
        }
    }
}

} // verus!
