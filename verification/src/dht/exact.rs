//! What each operation does to a routing table, contact by contact.

use crate::codec;
use crate::dht::bucket::{BucketView, PendingReplacement};
use crate::dht::closest;
use crate::dht::contact;
use crate::dht::contact::{Contact, NodeStatus};
use crate::dht::id;
use crate::dht::id::NodeId;
use crate::dht::metrics::DhtMetrics;
use crate::dht::routing;
use crate::dht::routing::{InsertOutcome, PingFailureOutcome, RoutingAction, TableView};
use crate::time::{Duration, Instant};
use vstd::prelude::*;

verus! {

/// A node is among the contacts.
pub open spec fn is_listed(contacts: Seq<Contact>, node_id: NodeId) -> bool {
    exists|i: int| 0 <= i < contacts.len() && (#[trigger] contacts[i]).node_id == node_id
}

/// A node was heard of just now.
pub open spec fn is_new_contact(c: Contact, node_id: NodeId, now: Instant) -> bool {
    c.node_id == node_id && c.last_seen == now && c.status == NodeStatus::Active
}

/// Of two tables all is the same but for one bucket and the counters.
pub open spec fn differs_at(before: TableView, after: TableView, b: u8) -> bool {
    &&& after.local_id == before.local_id
    &&& after.k == before.k
    &&& after.clock == before.clock
    &&& after.buckets.len() == before.buckets.len()
    &&& forall|i: int|
        0 <= i < before.buckets.len() && i != b ==> #[trigger] after.buckets[i] == before.buckets[i]
}

/// Of two tables all is the same but for the counters.
pub open spec fn same_buckets(before: TableView, after: TableView) -> bool {
    &&& after.local_id == before.local_id
    &&& after.k == before.k
    &&& after.clock == before.clock
    &&& after.buckets == before.buckets
}

/// A node is held just where it is listed.
proof fn lemma_listed(contacts: Seq<Contact>, node_id: NodeId)
    ensures
        contact::holds(contacts, node_id) <==> is_listed(contacts, node_id),
{
    contact::lemma_position(contacts, node_id);
    if contact::holds(contacts, node_id) {
        let i = contact::position(contacts, node_id)->0;
        assert(contacts[i].node_id == node_id);
    }
}

/// Where distinct contacts list a node, without it they are the others in their order.
proof fn lemma_taken_out(contacts: Seq<Contact>, node_id: NodeId, at: int)
    requires
        contact::distinct(contacts),
        0 <= at < contacts.len(),
        contacts[at].node_id == node_id,
    ensures
        contact::position(contacts, node_id) == Some(at),
        contact::holds(contacts, node_id),
        contact::without(contacts, node_id) == contacts.remove(at),
{
    contact::lemma_position_unique(contacts, at);
}

/// The table's own node is passed over: no bucket changes, and nothing has to be done.
pub proof fn law_own_node_is_ignored(table: TableView, now: Instant)
    requires
        table.wf(),
        table.metrics.insert_ignored_self < u64::MAX,
    ensures
        table.insert_outcome(table.local_id) == InsertOutcome::IgnoredSelf,
        table.insert_actions(table.local_id).len() == 0,
        same_buckets(table, table.after_insert(table.local_id, now)),
        table.after_insert(table.local_id, now).metrics == (DhtMetrics {
            insert_ignored_self: (table.metrics.insert_ignored_self + 1) as u64,
            ..table.metrics
        }),
        !table.contains(table.local_id),
{
    id::law_bucket_bounds_distance(table.local_id, table.local_id);
}

/// Every other node belongs to the bucket whose number is the place of the highest bit in which its
/// identifier differs from the table's own.
pub proof fn law_every_other_node_has_a_bucket(table: TableView, node_id: NodeId)
    requires
        node_id != table.local_id,
    ensures
        table.bucket_for(node_id) matches Some(b) && vstd::arithmetic::power2::pow2(b as nat)
            <= id::distance(table.local_id, node_id) < vstd::arithmetic::power2::pow2(b as nat + 1),
{
    id::law_bucket_bounds_distance(table.local_id, node_id);
}

/// A node that its bucket holds, and that is heard of again, moves to the end as active, and the
/// others stay in their order. Neither the replacements nor what is waited for changes, nor any
/// other bucket, and nothing has to be done.
pub proof fn law_insert_of_a_held_node(table: TableView, node_id: NodeId, now: Instant, b: u8, at: int)
    requires
        table.wf(),
        table.bucket_for(node_id) == Some(b),
        0 <= at < table.buckets[b as int].nodes.len(),
        table.buckets[b as int].nodes[at].node_id == node_id,
        table.metrics.insert_already_present < u64::MAX,
    ensures
        ({
            let before = table.buckets[b as int];
            let after = table.after_insert(node_id, now);
            let bucket = after.buckets[b as int];
            &&& table.insert_outcome(node_id) == (InsertOutcome::AlreadyPresent { bucket_index: b })
            &&& table.insert_actions(node_id).len() == 0
            &&& differs_at(table, after, b)
            &&& bucket.nodes.len() == before.nodes.len()
            &&& bucket.nodes.drop_last() == before.nodes.remove(at)
            &&& is_new_contact(bucket.nodes.last(), node_id, now)
            &&& bucket.replacements == before.replacements
            &&& bucket.pending == before.pending
            &&& bucket.last_refreshed == now
            &&& after.metrics == (DhtMetrics {
                insert_already_present: (table.metrics.insert_already_present + 1) as u64,
                ..table.metrics
            })
        }),
{
    let before = table.buckets[b as int];
    assert(before.wf(table.local_id, table.k, b as int));
    lemma_taken_out(before.nodes, node_id, at);
    let bucket = table.after_insert(node_id, now).buckets[b as int];
    assert(bucket.nodes.drop_last() =~= before.nodes.remove(at));
}

/// A new node whose bucket has room is put at its end as active. Nothing else changes in the bucket,
/// nor does any other, and nothing has to be done.
pub proof fn law_insert_of_a_new_node(table: TableView, node_id: NodeId, now: Instant, b: u8)
    requires
        table.wf(),
        table.bucket_for(node_id) == Some(b),
        !is_listed(table.buckets[b as int].nodes, node_id),
        table.buckets[b as int].nodes.len() < table.k,
        table.metrics.insert_inserted < u64::MAX,
    ensures
        ({
            let before = table.buckets[b as int];
            let after = table.after_insert(node_id, now);
            let bucket = after.buckets[b as int];
            &&& table.insert_outcome(node_id) == (InsertOutcome::Inserted { bucket_index: b })
            &&& table.insert_actions(node_id).len() == 0
            &&& differs_at(table, after, b)
            &&& bucket.nodes.len() == before.nodes.len() + 1
            &&& bucket.nodes.drop_last() == before.nodes
            &&& is_new_contact(bucket.nodes.last(), node_id, now)
            &&& bucket.replacements == before.replacements
            &&& bucket.pending == before.pending
            &&& bucket.last_refreshed == now
            &&& after.metrics == (DhtMetrics {
                insert_inserted: (table.metrics.insert_inserted + 1) as u64,
                ..table.metrics
            })
        }),
{
    let before = table.buckets[b as int];
    assert(before.wf(table.local_id, table.k, b as int));
    lemma_listed(before.nodes, node_id);
    let bucket = table.after_insert(node_id, now).buckets[b as int];
    assert(bucket.nodes.drop_last() =~= before.nodes);
}

/// A new node whose bucket is full waits. The bucket keeps its nodes, its first node has to be asked
/// whether it lives, and the new node is to take that node's place. It is one of the replacements
/// afterwards: one that was among them already leaves them as they are; else it comes behind them,
/// the others stay in their order, and the oldest goes just where there were as many as the bucket
/// holds. No other bucket changes.
pub proof fn law_insert_into_a_full_bucket(table: TableView, node_id: NodeId, now: Instant, b: u8)
    requires
        table.wf(),
        table.bucket_for(node_id) == Some(b),
        !is_listed(table.buckets[b as int].nodes, node_id),
        table.buckets[b as int].nodes.len() == table.k,
        table.metrics.insert_pending_ping < u64::MAX,
        table.metrics.actions_generated_ping < u64::MAX,
    ensures
        ({
            let before = table.buckets[b as int];
            let after = table.after_insert(node_id, now);
            let bucket = after.buckets[b as int];
            let stale_node = before.nodes[0].node_id;
            &&& table.insert_outcome(node_id) == (InsertOutcome::PendingPing {
                bucket_index: b,
                stale_node,
                new_candidate: node_id,
            })
            &&& table.insert_actions(node_id).len() == 1
            &&& table.insert_actions(node_id)[0] == RoutingAction::Ping(stale_node)
            &&& differs_at(table, after, b)
            &&& bucket.nodes == before.nodes
            &&& bucket.last_refreshed == before.last_refreshed
            &&& bucket.pending matches Some(pending) && pending.stale_node == stale_node
                && is_new_contact(pending.new_candidate, node_id, now)
            &&& is_listed(bucket.replacements, node_id)
            &&& is_listed(before.replacements, node_id) ==> bucket.replacements
                == before.replacements
            &&& !is_listed(before.replacements, node_id) ==> {
                &&& is_new_contact(bucket.replacements.last(), node_id, now)
                &&& before.replacements.len() < table.k ==> bucket.replacements.drop_last()
                    == before.replacements
                &&& before.replacements.len() == table.k ==> bucket.replacements.drop_last()
                    == before.replacements.subrange(1, table.k as int)
            }
            &&& after.metrics == (DhtMetrics {
                insert_pending_ping: (table.metrics.insert_pending_ping + 1) as u64,
                actions_generated_ping: (table.metrics.actions_generated_ping + 1) as u64,
                ..table.metrics
            })
        }),
{
    let before = table.buckets[b as int];
    assert(before.wf(table.local_id, table.k, b as int));
    lemma_listed(before.nodes, node_id);
    lemma_listed(before.replacements, node_id);
    let bucket = table.after_insert(node_id, now).buckets[b as int];
    if !is_listed(before.replacements, node_id) {
        assert(bucket.replacements[bucket.replacements.len() - 1].node_id == node_id);
        if before.replacements.len() < table.k {
            assert(bucket.replacements.drop_last() =~= before.replacements);
        } else {
            assert(bucket.replacements.drop_last() =~= before.replacements.subrange(
                1,
                table.k as int,
            ));
        }
    }
}

/// A candidate that waits comes in when the node it waits for fails for good. However often it was
/// heard of while the bucket was full, where no other waited before it, the second failure of an
/// active node at the front puts it in that node's place.
pub proof fn law_waiting_candidate_comes_in(
    table: TableView,
    candidate: NodeId,
    b: u8,
    heard: Instant,
    heard_again: Instant,
    first: Instant,
    second: Instant,
)
    requires
        table.wf(),
        table.bucket_for(candidate) == Some(b),
        !is_listed(table.buckets[b as int].nodes, candidate),
        table.buckets[b as int].nodes.len() == table.k,
        table.buckets[b as int].replacements.len() == 0,
        table.buckets[b as int].nodes[0].status == NodeStatus::Active,
    ensures
        ({
            let stale_node = table.buckets[b as int].nodes[0].node_id;
            let waiting = table.after_insert(candidate, heard).after_insert(candidate, heard_again);
            let suspected = waiting.after_failure(stale_node, first);
            let evicted = suspected.after_failure(stale_node, second);
            &&& suspected.failure_outcome(stale_node) == (PingFailureOutcome::Evicted {
                bucket_index: b,
                node_id: stale_node,
                replaced_with: Some(candidate),
            })
            &&& evicted.contains(candidate)
            &&& !evicted.contains(stale_node)
            &&& evicted.buckets[b as int].nodes.len() == table.k
            &&& evicted.buckets[b as int].replacements.len() == 0
        }),
{
    let before = table.buckets[b as int];
    let stale_node = before.nodes[0].node_id;
    assert(before.wf(table.local_id, table.k, b as int));
    lemma_listed(before.nodes, candidate);
    lemma_listed(before.replacements, candidate);
    let once = table.after_insert(candidate, heard);
    crate::dht::bucket::lemma_insert_wf(
        before,
        table.local_id,
        table.k,
        b as int,
        candidate,
        heard,
    );
    assert(once.wf());
    let bucket = once.buckets[b as int];
    assert(bucket.replacements[0].node_id == candidate);
    lemma_listed(bucket.replacements, candidate);
    let waiting = once.after_insert(candidate, heard_again);
    let full = waiting.buckets[b as int];
    assert(full.nodes == before.nodes);
    assert(full.replacements == bucket.replacements);
    assert(full.wf(table.local_id, table.k, b as int));
    assert(waiting.wf());
    lemma_taken_out(full.nodes, stale_node, 0);
    assert(waiting.bucket_for(stale_node) == Some(b));
    let suspected = waiting.after_failure(stale_node, first);
    let marked = suspected.buckets[b as int];
    crate::dht::bucket::lemma_failure_wf(
        full,
        table.local_id,
        table.k,
        b as int,
        stale_node,
        first,
    );
    lemma_taken_out(marked.nodes, stale_node, 0);
    let others = marked.nodes.remove(0);
    assert(others =~= before.nodes.remove(0));
    contact::lemma_without(marked.nodes, stale_node);
    lemma_listed(others, candidate);
    if is_listed(others, candidate) {
        let i = choose|i: int| 0 <= i < others.len() && (#[trigger] others[i]).node_id == candidate;
        assert(before.nodes[i + 1].node_id == candidate);
    }
    contact::lemma_pushed(others, contact::fresh(candidate, second));
}

/// An answer of a node that the table does not hold changes no bucket.
pub proof fn law_answer_of_an_unknown_node(table: TableView, node_id: NodeId, now: Instant)
    requires
        table.wf(),
        table.bucket_for(node_id) matches Some(b) ==> !is_listed(
            table.buckets[b as int].nodes,
            node_id,
        ),
        table.metrics.mark_active_miss < u64::MAX,
    ensures
        !table.contains(node_id),
        same_buckets(table, table.after_answer(node_id, now)),
        table.after_answer(node_id, now).metrics == (DhtMetrics {
            mark_active_miss: (table.metrics.mark_active_miss + 1) as u64,
            ..table.metrics
        }),
{
    if let Some(b) = table.bucket_for(node_id) {
        lemma_listed(table.buckets[b as int].nodes, node_id);
    }
}

/// A node that answers moves to the end of its bucket as active, and the others stay in their order.
/// Where the bucket waited for it, it waits no more, and the candidate for its place is taken out of
/// the replacements; else both stay. No other bucket changes.
pub proof fn law_answer_of_a_held_node(table: TableView, node_id: NodeId, now: Instant, b: u8, at: int)
    requires
        table.wf(),
        table.bucket_for(node_id) == Some(b),
        0 <= at < table.buckets[b as int].nodes.len(),
        table.buckets[b as int].nodes[at].node_id == node_id,
        table.metrics.mark_active_ok < u64::MAX,
    ensures
        ({
            let before = table.buckets[b as int];
            let after = table.after_answer(node_id, now);
            let bucket = after.buckets[b as int];
            &&& table.contains(node_id)
            &&& differs_at(table, after, b)
            &&& bucket.nodes.len() == before.nodes.len()
            &&& bucket.nodes.drop_last() == before.nodes.remove(at)
            &&& is_new_contact(bucket.nodes.last(), node_id, now)
            &&& bucket.last_refreshed == now
            &&& match before.pending {
                Some(pending) => if pending.stale_node == node_id {
                    &&& bucket.pending is None
                    &&& is_taken_out(
                        before.replacements,
                        bucket.replacements,
                        pending.new_candidate.node_id,
                    )
                } else {
                    bucket.pending == before.pending && bucket.replacements == before.replacements
                },
                None => bucket.pending is None && bucket.replacements == before.replacements,
            }
            &&& after.metrics == (DhtMetrics {
                mark_active_ok: (table.metrics.mark_active_ok + 1) as u64,
                ..table.metrics
            })
        }),
{
    let before = table.buckets[b as int];
    assert(before.wf(table.local_id, table.k, b as int));
    lemma_taken_out(before.nodes, node_id, at);
    let bucket = table.after_answer(node_id, now).buckets[b as int];
    assert(bucket.nodes.drop_last() =~= before.nodes.remove(at));
    if let Some(pending) = before.pending {
        if pending.stale_node == node_id {
            lemma_is_taken_out(before.replacements, pending.new_candidate.node_id);
        }
    }
}

/// The second list is the first without a node: the others in their order, or all of them where the
/// node was not listed.
pub open spec fn is_taken_out(before: Seq<Contact>, after: Seq<Contact>, node_id: NodeId) -> bool {
    if is_listed(before, node_id) {
        exists|at: int|
            0 <= at < before.len() && (#[trigger] before[at]).node_id == node_id && after
                == before.remove(at)
    } else {
        after == before
    }
}

/// Contacts without a node are just that.
proof fn lemma_is_taken_out(contacts: Seq<Contact>, node_id: NodeId)
    requires
        contact::distinct(contacts),
    ensures
        is_taken_out(contacts, contact::without(contacts, node_id), node_id),
{
    lemma_listed(contacts, node_id);
    contact::lemma_position(contacts, node_id);
    if is_listed(contacts, node_id) {
        let at = contact::position(contacts, node_id)->0;
        assert(contacts[at].node_id == node_id);
    }
}

/// The failure of a node that the table does not hold changes nothing at all.
pub proof fn law_failure_of_an_unknown_node(table: TableView, node_id: NodeId, now: Instant)
    requires
        table.wf(),
        table.bucket_for(node_id) matches Some(b) ==> !is_listed(
            table.buckets[b as int].nodes,
            node_id,
        ),
    ensures
        table.failure_outcome(node_id) == PingFailureOutcome::NotFound,
        table.after_failure(node_id, now) == table,
{
    if let Some(b) = table.bucket_for(node_id) {
        lemma_listed(table.buckets[b as int].nodes, node_id);
    }
}

/// An active node that fails to answer moves to the front of its bucket, suspected, and was last seen
/// when it was; the others stay in their order. Nothing else changes in the bucket, nor any other.
pub proof fn law_failure_of_an_active_node(table: TableView, node_id: NodeId, now: Instant, b: u8, at: int)
    requires
        table.wf(),
        table.bucket_for(node_id) == Some(b),
        0 <= at < table.buckets[b as int].nodes.len(),
        table.buckets[b as int].nodes[at].node_id == node_id,
        table.buckets[b as int].nodes[at].status == NodeStatus::Active,
        table.metrics.nodes_suspected < u64::MAX,
    ensures
        ({
            let before = table.buckets[b as int];
            let after = table.after_failure(node_id, now);
            let bucket = after.buckets[b as int];
            &&& table.failure_outcome(node_id) == (PingFailureOutcome::Suspected {
                bucket_index: b,
                node_id,
            })
            &&& differs_at(table, after, b)
            &&& bucket.nodes.len() == before.nodes.len()
            &&& bucket.nodes[0].node_id == node_id
            &&& bucket.nodes[0].last_seen == before.nodes[at].last_seen
            &&& bucket.nodes[0].status == NodeStatus::Suspected
            &&& bucket.nodes.drop_first() == before.nodes.remove(at)
            &&& bucket.replacements == before.replacements
            &&& bucket.pending == before.pending
            &&& bucket.last_refreshed == now
            &&& after.metrics == (DhtMetrics {
                nodes_suspected: (table.metrics.nodes_suspected + 1) as u64,
                ..table.metrics
            })
        }),
{
    let before = table.buckets[b as int];
    assert(before.wf(table.local_id, table.k, b as int));
    lemma_taken_out(before.nodes, node_id, at);
    let bucket = table.after_failure(node_id, now).buckets[b as int];
    assert(bucket.nodes.drop_first() =~= before.nodes.remove(at));
}

/// A suspected node that fails to answer is gone from its bucket, and the others stay in their order.
/// The oldest replacement, if there is one, is taken out of the replacements and comes in at the end
/// as active, unless it is in the bucket. Where the bucket waited for the node, it waits no more. No
/// other bucket changes.
pub proof fn law_failure_of_a_suspected_node(
    table: TableView,
    node_id: NodeId,
    now: Instant,
    b: u8,
    at: int,
)
    requires
        table.wf(),
        table.bucket_for(node_id) == Some(b),
        0 <= at < table.buckets[b as int].nodes.len(),
        table.buckets[b as int].nodes[at].node_id == node_id,
        table.buckets[b as int].nodes[at].status == NodeStatus::Suspected,
        table.metrics.nodes_evicted < u64::MAX,
    ensures
        ({
            let before = table.buckets[b as int];
            let after = table.after_failure(node_id, now);
            let bucket = after.buckets[b as int];
            let others = before.nodes.remove(at);
            &&& differs_at(table, after, b)
            &&& bucket.last_refreshed == now
            &&& bucket.pending == if before.pending is Some && before.pending->0.stale_node
                == node_id {
                None::<PendingReplacement>
            } else {
                before.pending
            }
            &&& before.replacements.len() == 0 ==> {
                &&& table.failure_outcome(node_id) == (PingFailureOutcome::Evicted {
                    bucket_index: b,
                    node_id,
                    replaced_with: None,
                })
                &&& bucket.nodes == others
                &&& bucket.replacements.len() == 0
            }
            &&& before.replacements.len() > 0 ==> {
                let next = before.replacements[0].node_id;
                &&& table.failure_outcome(node_id) == (PingFailureOutcome::Evicted {
                    bucket_index: b,
                    node_id,
                    replaced_with: Some(next),
                })
                &&& bucket.replacements == before.replacements.subrange(
                    1,
                    before.replacements.len() as int,
                )
                &&& is_listed(others, next) ==> bucket.nodes == others
                &&& !is_listed(others, next) ==> bucket.nodes.len() == others.len() + 1
                    && bucket.nodes.drop_last() == others && is_new_contact(
                    bucket.nodes.last(),
                    next,
                    now,
                )
            }
            &&& after.metrics == (DhtMetrics {
                nodes_evicted: (table.metrics.nodes_evicted + 1) as u64,
                ..table.metrics
            })
        }),
{
    let before = table.buckets[b as int];
    let others = before.nodes.remove(at);
    assert(before.wf(table.local_id, table.k, b as int));
    lemma_taken_out(before.nodes, node_id, at);
    let bucket = table.after_failure(node_id, now).buckets[b as int];
    if before.replacements.len() > 0 {
        let next = before.replacements[0].node_id;
        lemma_listed(others, next);
        assert(bucket.replacements =~= before.replacements.subrange(
            1,
            before.replacements.len() as int,
        ));
        if !is_listed(others, next) {
            assert(bucket.nodes.drop_last() =~= others);
        }
    }
}

/// A candidate takes the place of a dead node just where both belong to one bucket, the bucket holds
/// the dead node, and it does not wait for that node on behalf of another candidate. Else no bucket
/// changes.
pub proof fn law_replace_is_refused(table: TableView, dead: NodeId, candidate: NodeId, now: Instant)
    requires
        table.wf(),
        table.metrics.replace_stale_miss < u64::MAX,
    ensures
        table.can_replace(dead, candidate) <==> {
            &&& table.bucket_for(dead) matches Some(b) && table.bucket_for(candidate) == Some(b)
                && is_listed(table.buckets[b as int].nodes, dead)
                && !(table.buckets[b as int].pending matches Some(pending) && pending.stale_node
                == dead && pending.new_candidate.node_id != candidate)
        },
        !table.can_replace(dead, candidate) ==> {
            &&& same_buckets(table, table.after_replace(dead, candidate, now))
            &&& table.after_replace(dead, candidate, now).metrics == (DhtMetrics {
                replace_stale_miss: (table.metrics.replace_stale_miss + 1) as u64,
                ..table.metrics
            })
        },
{
    if let Some(b) = table.bucket_for(dead) {
        lemma_listed(table.buckets[b as int].nodes, dead);
    }
}

/// A dead node that is replaced is gone from its bucket, and the others stay in their order. The
/// candidate comes in at the end as active, unless it is in the bucket, and is taken out of the
/// replacements. The bucket waits for no node any more, and no other bucket changes.
pub proof fn law_replace_of_a_dead_node(
    table: TableView,
    dead: NodeId,
    candidate: NodeId,
    now: Instant,
    b: u8,
    at: int,
)
    requires
        table.wf(),
        table.can_replace(dead, candidate),
        table.bucket_for(dead) == Some(b),
        0 <= at < table.buckets[b as int].nodes.len(),
        table.buckets[b as int].nodes[at].node_id == dead,
        table.metrics.replace_stale_ok < u64::MAX,
    ensures
        ({
            let before = table.buckets[b as int];
            let after = table.after_replace(dead, candidate, now);
            let bucket = after.buckets[b as int];
            let others = before.nodes.remove(at);
            &&& differs_at(table, after, b)
            &&& is_listed(others, candidate) ==> bucket.nodes == others
            &&& !is_listed(others, candidate) ==> bucket.nodes.len() == before.nodes.len()
                && bucket.nodes.drop_last() == others && is_new_contact(
                bucket.nodes.last(),
                candidate,
                now,
            )
            &&& is_taken_out(before.replacements, bucket.replacements, candidate)
            &&& bucket.pending is None
            &&& bucket.last_refreshed == now
            &&& after.metrics == (DhtMetrics {
                replace_stale_ok: (table.metrics.replace_stale_ok + 1) as u64,
                ..table.metrics
            })
        }),
{
    let before = table.buckets[b as int];
    let others = before.nodes.remove(at);
    assert(before.wf(table.local_id, table.k, b as int));
    lemma_taken_out(before.nodes, dead, at);
    lemma_listed(others, candidate);
    lemma_is_taken_out(before.replacements, candidate);
    let bucket = table.after_replace(dead, candidate, now).buckets[b as int];
    if !is_listed(others, candidate) {
        assert(bucket.nodes.drop_last() =~= others);
    }
}

/// To note that a bucket was refreshed changes when it was, and nothing else.
pub proof fn law_refresh_notes_the_moment(table: TableView, b: u8, now: Instant)
    requires
        table.wf(),
        table.metrics.refresh_marked < u64::MAX,
    ensures
        ({
            let before = table.buckets[b as int];
            let after = table.after_refresh(b, now);
            let bucket = after.buckets[b as int];
            &&& differs_at(table, after, b)
            &&& bucket.nodes == before.nodes
            &&& bucket.replacements == before.replacements
            &&& bucket.pending == before.pending
            &&& bucket.last_refreshed == now
            &&& after.metrics == (DhtMetrics {
                refresh_marked: (table.metrics.refresh_marked + 1) as u64,
                ..table.metrics
            })
        }),
{
}

/// A bucket is stale where the time since it was refreshed is no shorter than that; a bucket that
/// was refreshed later than `now` has no time behind it.
pub proof fn law_staleness_is_age(table: TableView, b: u8, now: Instant, stale_after: Duration)
    ensures
        ({
            let refreshed = table.buckets[b as int].last_refreshed.nanos;
            table.is_stale(b as int, now, stale_after) <==> stale_after.nanos == 0 || now.nanos
                - refreshed >= stale_after.nanos
        }),
{
}

/// The nodes of a reply are heard of one after the other, in their order: the last of them after all
/// the others, and what has to be done because of it comes last. A reply without nodes only counts.
pub proof fn law_reply_is_heard_node_by_node(
    table: TableView,
    nodes: Seq<NodeId>,
    times: Seq<Instant>,
    node_id: NodeId,
    now: Instant,
    mid: TableView,
    mid_actions: Seq<RoutingAction>,
    after: TableView,
    actions: Seq<RoutingAction>,
)
    requires
        table.is_batch(nodes, times, mid, mid_actions),
        table.is_batch(nodes.push(node_id), times.push(now), after, actions),
        mid.metrics.nodes_found_nodes_total < u64::MAX,
        table.metrics.nodes_found_batches < u64::MAX,
    ensures
        after.buckets == mid.after_insert(node_id, now).buckets,
        actions == mid_actions + mid.insert_actions(node_id),
        nodes.len() == 0 ==> mid.buckets == table.buckets && mid_actions.len() == 0
            && mid.metrics == (DhtMetrics {
            nodes_found_batches: (table.metrics.nodes_found_batches + 1) as u64,
            ..table.metrics
        }),
        after.metrics.nodes_found_nodes_total == mid.metrics.nodes_found_nodes_total + 1,
        after.metrics.nodes_found_batches == mid.metrics.nodes_found_batches,
        after.local_id == mid.local_id,
        after.k == mid.k,
{
    assert(nodes.push(node_id).drop_last() =~= nodes);
    assert(times.push(now).drop_last() =~= times);
    assert(mid.count_found().after_insert(node_id, now).buckets =~= mid.after_insert(
        node_id,
        now,
    ).buckets);
}

/// The table holds a node just where the node stands in one of the buckets, and has the status of its
/// contact there.
pub proof fn law_status_is_that_of_the_contact(table: TableView, node_id: NodeId, status: NodeStatus)
    requires
        table.wf(),
    ensures
        table.status(node_id) == Some(status) <==> exists|b: int, i: int|
            0 <= b < 256 && 0 <= i < table.buckets[b].nodes.len() && (
            #[trigger] table.buckets[b].nodes[i]).node_id == node_id
                && table.buckets[b].nodes[i].status == status,
        table.contains(node_id) <==> table.status(node_id) is Some,
{
    if let Some(own) = table.bucket_for(node_id) {
        let nodes = table.buckets[own as int].nodes;
        contact::lemma_position(nodes, node_id);
        if contact::holds(nodes, node_id) {
            let i = contact::position(nodes, node_id)->0;
            assert(table.buckets[own as int].nodes[i].node_id == node_id);
        }
    }
    if exists|b: int, i: int|
        0 <= b < 256 && 0 <= i < table.buckets[b].nodes.len() && (
        #[trigger] table.buckets[b].nodes[i]).node_id == node_id && table.buckets[b].nodes[i].status
            == status {
        let (b, i) = choose|b: int, i: int|
            0 <= b < 256 && 0 <= i < table.buckets[b].nodes.len() && (
            #[trigger] table.buckets[b].nodes[i]).node_id == node_id
                && table.buckets[b].nodes[i].status == status;
        assert(table.buckets[b].wf(table.local_id, table.k, b));
        assert(table.bucket_for(table.buckets[b].nodes[i].node_id) == Some(b as u8));
        contact::lemma_position_unique(table.buckets[b].nodes, i);
    }
}

/// A lookup gives as many nodes as asked for, or all that there are; it gives only nodes of the
/// table, none twice, each nearer to the target than the next and than all that it leaves out.
pub proof fn law_lookup_gives_the_nearest(
    table: TableView,
    target: NodeId,
    limit: nat,
    picked: Seq<NodeId>,
    node: NodeId,
    i: int,
    j: int,
)
    requires
        table.wf(),
        closest::is_closest(picked, table.nodes(), target, limit),
    ensures
        table.nodes().len() <= limit ==> picked.len() == table.nodes().len(),
        table.nodes().len() >= limit ==> picked.len() == limit,
        0 <= i < picked.len() ==> table.contains(picked[i]),
        0 <= i < j < picked.len() ==> codec::be_value(id::xor_bytes(picked[i]@, target@))
            < codec::be_value(id::xor_bytes(picked[j]@, target@)),
        table.contains(node) && !picked.contains(node) ==> picked.len() == limit,
        table.contains(node) && !picked.contains(node) && 0 <= i < picked.len() ==> codec::be_value(
            id::xor_bytes(picked[i]@, target@),
        ) < codec::be_value(id::xor_bytes(node@, target@)),
{
    routing::law_nodes_are_those_held(table);
    if 0 <= i < picked.len() {
        assert(table.nodes().contains(picked[i]));
    }
    if table.contains(node) && !picked.contains(node) {
        assert(table.nodes().contains(node));
        if 0 <= i < picked.len() {
            assert(id::distance(picked[i], target) < id::distance(node, target));
        }
    }
    if 0 <= i < j < picked.len() {
        assert(id::distance(picked[i], target) < id::distance(picked[j], target));
    }
}

/// The identifiers of some contacts are those of each of them, in their order.
pub proof fn law_contacts_are_listed_in_order(contacts: Seq<Contact>, i: int)
    requires
        0 <= i < contacts.len(),
    ensures
        contact::ids(contacts).len() == contacts.len(),
        contact::ids(contacts)[i] == contacts[i].node_id,
{
}

/// The buckets that are counted as not empty are just those that hold a node.
pub proof fn law_non_empty_buckets_hold_nodes(buckets: Seq<BucketView>)
    ensures
        routing::non_empty(buckets) == buckets.filter(|b: BucketView| b.nodes.len() > 0).len(),
    decreases buckets.len(),
{
    reveal(Seq::filter);
    if buckets.len() > 0 {
        law_non_empty_buckets_hold_nodes(buckets.drop_last());
    }
}

/// A bucket that no node was put in holds no node and no replacement, and waits for none.
pub proof fn law_empty_bucket_holds_nothing(refreshed: Instant)
    ensures
        ({
            let bucket = BucketView::empty(refreshed);
            &&& bucket.nodes.len() == 0
            &&& bucket.replacements.len() == 0
            &&& bucket.pending is None
            &&& bucket.last_refreshed == refreshed
        }),
{
}

} // verus!
