//! What holds of a routing table whatever happened to it.

use crate::dht::bucket;
use crate::dht::bucket::BucketView;
use crate::dht::contact;
use crate::dht::contact::NodeStatus;
use crate::dht::id::NodeId;
use crate::dht::laws;
use crate::dht::metrics::DhtMetrics;
use crate::dht::routing;
use crate::dht::routing::{TableView, K_BUCKET_COUNT};
use crate::time::Instant;
use vstd::prelude::*;

verus! {

/// What may happen to a routing table: one event for each of its operations, and one for those
/// that only count.
pub enum TableEvent {
    /// The table heard of a node.
    Offered { node_id: NodeId, now: Instant },
    /// The table heard of the nodes of a reply, each at its own moment.
    Replied { nodes: Seq<NodeId>, times: Seq<Instant> },
    /// A node answered.
    Answered { node_id: NodeId, now: Instant },
    /// A node did not answer.
    Failed { node_id: NodeId, now: Instant },
    /// The table was told to replace a dead node.
    Replaced { dead: NodeId, candidate: NodeId, now: Instant },
    /// A bucket was refreshed.
    Refreshed { bucket_index: u8, now: Instant },
    /// A lookup, an action or a value was counted: the counters changed to these.
    Counted { metrics: DhtMetrics },
}

/// How many nodes the table was offered so far, by the counters: those put in a bucket, those that
/// were there already, those that have to wait, and the table's own.
pub open spec fn offers_counted(metrics: DhtMetrics) -> int {
    metrics.insert_inserted + metrics.insert_already_present + metrics.insert_pending_ping
        + metrics.insert_ignored_self
}

impl TableEvent {
    /// How many nodes the event offers to the table.
    pub open spec fn offers(self) -> nat {
        match self {
            TableEvent::Offered { .. } => 1,
            TableEvent::Replied { nodes, .. } => nodes.len(),
            _ => 0,
        }
    }

    /// Whether the event can happen to a table: its counters can count it, and what only counts
    /// counts no offers.
    pub open spec fn can_happen(self, table: TableView) -> bool {
        match self {
            TableEvent::Offered { node_id, .. } => table.can_count_insert(node_id),
            TableEvent::Replied { nodes, times } => table.can_count_batch(nodes.len())
                && times.len() == nodes.len(),
            TableEvent::Answered { node_id, .. } => table.can_count_answer(node_id),
            TableEvent::Failed { node_id, .. } => table.can_count_failure(node_id),
            TableEvent::Replaced { dead, candidate, .. } => table.can_count_replace(
                dead,
                candidate,
            ),
            TableEvent::Refreshed { .. } => table.metrics.refresh_marked < u64::MAX,
            TableEvent::Counted { metrics } => {
                &&& metrics.insert_inserted == table.metrics.insert_inserted
                &&& metrics.insert_already_present == table.metrics.insert_already_present
                &&& metrics.insert_pending_ping == table.metrics.insert_pending_ping
                &&& metrics.insert_ignored_self == table.metrics.insert_ignored_self
            },
        }
    }

    /// The table once the event has happened.
    pub open spec fn after(self, table: TableView) -> TableView {
        match self {
            TableEvent::Offered { node_id, now } => table.after_insert(node_id, now),
            TableEvent::Replied { nodes, times } => table.batch_start().after_batch(nodes, times),
            TableEvent::Answered { node_id, now } => table.after_answer(node_id, now),
            TableEvent::Failed { node_id, now } => table.after_failure(node_id, now),
            TableEvent::Replaced { dead, candidate, now } => table.after_replace(
                dead,
                candidate,
                now,
            ),
            TableEvent::Refreshed { bucket_index, now } => table.after_refresh(bucket_index, now),
            TableEvent::Counted { metrics } => table.with_metrics(metrics),
        }
    }
}

/// The table after all of some events, in order.
pub open spec fn after_all(table: TableView, events: Seq<TableEvent>) -> TableView
    decreases events.len(),
{
    if events.len() == 0 {
        table
    } else {
        events.last().after(after_all(table, events.drop_last()))
    }
}

/// Whether the events can happen one after the other.
pub open spec fn can_all_happen(table: TableView, events: Seq<TableEvent>) -> bool
    decreases events.len(),
{
    events.len() > 0 ==> {
        &&& can_all_happen(table, events.drop_last())
        &&& events.last().can_happen(after_all(table, events.drop_last()))
    }
}

/// How many nodes the events offer to the table.
pub open spec fn offered(events: Seq<TableEvent>) -> nat
    decreases events.len(),
{
    if events.len() == 0 {
        0
    } else {
        offered(events.drop_last()) + events.last().offers()
    }
}

/// A table stays well-formed when one of its buckets is changed for a well-formed one.
proof fn lemma_with_bucket_wf(table: TableView, metrics: DhtMetrics, b: u8, changed: BucketView)
    requires
        table.wf(),
        changed.wf(table.local_id, table.k, b as int),
    ensures
        table.with_metrics(metrics).with_bucket(b, changed).wf(),
{
}

/// An insert keeps a table well-formed.
proof fn lemma_insert_wf(table: TableView, node_id: NodeId, now: Instant)
    requires
        table.wf(),
    ensures
        table.after_insert(node_id, now).wf(),
{
    if let Some(b) = table.bucket_for(node_id) {
        let old_bucket = table.buckets[b as int];
        assert(old_bucket.wf(table.local_id, table.k, b as int));
        bucket::lemma_insert_wf(old_bucket, table.local_id, table.k, b as int, node_id, now);
        lemma_with_bucket_wf(
            table,
            table.insert_metrics(node_id),
            b,
            old_bucket.after_insert(node_id, table.k, now),
        );
    }
}

/// The nodes of a reply keep a table well-formed, and each of them is counted as one offer.
proof fn lemma_batch(table: TableView, nodes: Seq<NodeId>, times: Seq<Instant>, room: nat)
    requires
        table.wf(),
        times.len() == nodes.len() <= room,
        table.metrics.nodes_found_nodes_total + room <= u64::MAX,
        table.metrics.insert_inserted + room <= u64::MAX,
        table.metrics.insert_already_present + room <= u64::MAX,
        table.metrics.insert_pending_ping + room <= u64::MAX,
        table.metrics.actions_generated_ping + room <= u64::MAX,
        table.metrics.insert_ignored_self + room <= u64::MAX,
    ensures
        table.after_batch(nodes, times).wf(),
        table.after_batch(nodes, times).metrics.counted_since(table.metrics, nodes.len()),
        offers_counted(table.after_batch(nodes, times).metrics) == offers_counted(table.metrics)
            + nodes.len(),
    decreases nodes.len(),
{
    if nodes.len() > 0 {
        lemma_batch(table, nodes.drop_last(), times.drop_last(), room);
        let before = table.after_batch(nodes.drop_last(), times.drop_last()).count_found();
        lemma_insert_wf(before, nodes.last(), times.last());
    }
}

/// An event that can happen keeps a table well-formed, and the offers it makes are counted.
proof fn lemma_event(table: TableView, event: TableEvent)
    requires
        table.wf(),
        event.can_happen(table),
    ensures
        event.after(table).wf(),
        offers_counted(event.after(table).metrics) == offers_counted(table.metrics)
            + event.offers(),
        event.after(table).local_id == table.local_id,
        event.after(table).k == table.k,
        event.after(table).clock == table.clock,
{
    match event {
        TableEvent::Offered { node_id, now } => {
            lemma_insert_wf(table, node_id, now);
        },
        TableEvent::Replied { nodes, times } => {
            lemma_batch(table.batch_start(), nodes, times, nodes.len());
            lemma_batch_keeps(table.batch_start(), nodes, times);
        },
        TableEvent::Answered { node_id, now } => {
            if table.contains(node_id) {
                let b = table.bucket_for(node_id)->0;
                let old_bucket = table.buckets[b as int];
                assert(old_bucket.wf(table.local_id, table.k, b as int));
                bucket::lemma_answer_wf(
                    old_bucket,
                    table.local_id,
                    table.k,
                    b as int,
                    node_id,
                    now,
                );
            }
        },
        TableEvent::Failed { node_id, now } => {
            if table.contains(node_id) {
                let b = table.bucket_for(node_id)->0;
                let old_bucket = table.buckets[b as int];
                assert(old_bucket.wf(table.local_id, table.k, b as int));
                bucket::lemma_failure_wf(
                    old_bucket,
                    table.local_id,
                    table.k,
                    b as int,
                    node_id,
                    now,
                );
            }
        },
        TableEvent::Replaced { dead, candidate, now } => {
            if table.can_replace(dead, candidate) {
                let b = table.bucket_for(dead)->0;
                let old_bucket = table.buckets[b as int];
                assert(old_bucket.wf(table.local_id, table.k, b as int));
                bucket::lemma_replace_wf(
                    old_bucket,
                    table.local_id,
                    table.k,
                    b as int,
                    dead,
                    candidate,
                    now,
                );
            }
        },
        TableEvent::Refreshed { bucket_index, now } => {
            assert(table.buckets[bucket_index as int].wf(
                table.local_id,
                table.k,
                bucket_index as int,
            ));
        },
        TableEvent::Counted { metrics } => {},
    }
}

/// The nodes of a reply leave the table's own node, the size of its buckets and its clock as they
/// are.
proof fn lemma_batch_keeps(table: TableView, nodes: Seq<NodeId>, times: Seq<Instant>)
    ensures
        table.after_batch(nodes, times).local_id == table.local_id,
        table.after_batch(nodes, times).k == table.k,
        table.after_batch(nodes, times).clock == table.clock,
    decreases nodes.len(),
{
    if nodes.len() > 0 {
        lemma_batch_keeps(table, nodes.drop_last(), times.drop_last());
    }
}

/// Whatever happens to a table, it stays well-formed around its own node and goes by the same clock,
/// and the four counters of what became of a node together count just the nodes that it was offered.
pub proof fn law_every_offer_is_counted(table: TableView, events: Seq<TableEvent>)
    requires
        table.wf(),
        can_all_happen(table, events),
    ensures
        after_all(table, events).wf(),
        after_all(table, events).local_id == table.local_id,
        after_all(table, events).k == table.k,
        after_all(table, events).clock == table.clock,
        offers_counted(after_all(table, events).metrics) == offers_counted(table.metrics)
            + offered(events),
        table.metrics == DhtMetrics::zero() ==> offers_counted(after_all(table, events).metrics)
            == offered(events),
    decreases events.len(),
{
    if events.len() > 0 {
        law_every_offer_is_counted(table, events.drop_last());
        lemma_event(after_all(table, events.drop_last()), events.last());
    }
}

/// The sum of some numbers.
pub open spec fn sum(numbers: Seq<usize>) -> nat
    decreases numbers.len(),
{
    if numbers.len() == 0 {
        0
    } else {
        sum(numbers.drop_last()) + numbers.last() as nat
    }
}

/// The nodes of some buckets are as many as the buckets hold together.
proof fn lemma_occupancy(buckets: Seq<BucketView>)
    requires
        forall|b: int| 0 <= b < buckets.len() ==> (#[trigger] buckets[b]).nodes.len() <= usize::MAX,
    ensures
        routing::nodes_of(buckets).len() == sum(
            buckets.map_values(|b: BucketView| b.nodes.len() as usize),
        ),
    decreases buckets.len(),
{
    let lens = buckets.map_values(|b: BucketView| b.nodes.len() as usize);
    if buckets.len() > 0 {
        let rest = buckets.drop_last();
        assert forall|b: int| 0 <= b < rest.len() implies (#[trigger] rest[b]).nodes.len()
            <= usize::MAX by {
            assert(rest[b] == buckets[b]);
        }
        lemma_occupancy(rest);
        assert(lens.drop_last() =~= rest.map_values(|b: BucketView| b.nodes.len() as usize));
        assert(lens.last() == buckets[buckets.len() - 1].nodes.len());
    }
}

/// A table has one number of nodes for each bucket, none above `k`, and together they are the
/// number of all its nodes.
pub proof fn law_occupancy_adds_up(table: TableView)
    requires
        table.wf(),
    ensures
        ({
            let lens = table.buckets.map_values(|b: BucketView| b.nodes.len() as usize);
            &&& lens.len() == K_BUCKET_COUNT
            &&& forall|b: int|
                0 <= b < K_BUCKET_COUNT ==> #[trigger] lens[b] == table.buckets[b].nodes.len()
                    && lens[b] <= table.k
            &&& table.nodes().len() == sum(lens)
        }),
{
    assert forall|b: int| 0 <= b < table.buckets.len() implies (
    #[trigger] table.buckets[b]).nodes.len() <= usize::MAX by {
        assert(table.buckets[b].wf(table.local_id, table.k, b));
    }
    lemma_occupancy(table.buckets);
    assert forall|b: int| 0 <= b < K_BUCKET_COUNT implies table.buckets[b].nodes.len()
        <= table.k by {
        assert(table.buckets[b].wf(table.local_id, table.k, b));
    }
}

/// A node that the table holds leaves it only in two ways: it is suspected and fails to answer again,
/// or it is declared dead and replaced. Nothing that happens to other nodes drives it out.
pub proof fn law_nodes_leave_only_when_they_fail(table: TableView, event: TableEvent, node_id: NodeId)
    requires
        table.wf(),
        event.can_happen(table),
        table.contains(node_id),
        !event.after(table).contains(node_id),
    ensures
        match event {
            TableEvent::Failed { node_id: failed, .. } => failed == node_id && table.status(node_id)
                == Some(NodeStatus::Suspected),
            TableEvent::Replaced { dead, .. } => dead == node_id,
            _ => false,
        },
{
    match event {
        TableEvent::Offered { node_id: offered, now } => {
            lemma_insert_keeps(table, offered, now, node_id);
        },
        TableEvent::Replied { nodes, times } => {
            lemma_batch_keeps_nodes(table.batch_start(), nodes, times, node_id);
        },
        TableEvent::Answered { node_id: answered, now } => {
            if table.contains(answered) {
                laws::law_answer_keeps_the_node(table, answered, now);
            }
        },
        TableEvent::Failed { node_id: failed, now } => {
            laws::law_failure_is_exact(table, failed, now);
            lemma_held_has_status(table, node_id);
            lemma_held_has_status(event.after(table), node_id);
            if table.bucket_for(failed) is Some && table.status(failed) == Some(
                NodeStatus::Suspected,
            ) {
                let b = table.bucket_for(failed)->0;
                let next = table.buckets[b as int].promoted();
                if next == Some(node_id) && failed != node_id {
                    let others = contact::without(table.buckets[b as int].nodes, failed);
                    assert(table.buckets[b as int].wf(table.local_id, table.k, b as int));
                    assert(table.buckets[b as int].replacements[0].node_id == node_id);
                    contact::lemma_without(table.buckets[b as int].nodes, failed);
                    assert(contact::holds(others, node_id));
                }
            }
        },
        TableEvent::Replaced { dead, candidate, now } => {
            laws::law_replace_is_exact(table, dead, candidate, now);
            if table.can_replace(dead, candidate) {
                laws::law_replace_swaps(table, dead, candidate, now);
            }
        },
        TableEvent::Refreshed { bucket_index, now } => {},
        TableEvent::Counted { metrics } => {},
    }
}

/// A node that is held has a status.
proof fn lemma_held_has_status(table: TableView, node_id: NodeId)
    ensures
        table.contains(node_id) <==> table.status(node_id) is Some,
{
}

/// To hear of a node drives no other out.
proof fn lemma_insert_keeps(table: TableView, offered: NodeId, now: Instant, node_id: NodeId)
    requires
        table.wf(),
        table.contains(node_id),
    ensures
        table.after_insert(offered, now).contains(node_id),
{
    if table.bucket_for(offered) is Some {
        if table.insert_outcome(offered) is PendingPing {
            let b = table.bucket_for(offered)->0 as int;
            assert(table.after_insert(offered, now).buckets[b].nodes == table.buckets[b].nodes);
        } else {
            laws::law_insert_makes_present(table, offered, now);
            if offered == node_id {
                lemma_held_has_status(table.after_insert(offered, now), node_id);
            }
        }
    }
}

/// To hear of the nodes of a reply drives no node out.
proof fn lemma_batch_keeps_nodes(
    table: TableView,
    nodes: Seq<NodeId>,
    times: Seq<Instant>,
    node_id: NodeId,
)
    requires
        table.wf(),
        table.contains(node_id),
    ensures
        table.after_batch(nodes, times).wf(),
        table.after_batch(nodes, times).contains(node_id),
    decreases nodes.len(),
{
    if nodes.len() > 0 {
        lemma_batch_keeps_nodes(table, nodes.drop_last(), times.drop_last(), node_id);
        let before = table.after_batch(nodes.drop_last(), times.drop_last()).count_found();
        assert(before.contains(node_id));
        lemma_insert_wf(before, nodes.last(), times.last());
        lemma_insert_keeps(before, nodes.last(), times.last(), node_id);
    }
}

} // verus!
