//! What holds of the routing table across its operations.

use crate::dht::bucket::BucketView;
use crate::dht::closest;
use crate::dht::contact;
use crate::dht::contact::{Contact, NodeStatus};
use crate::dht::id;
use crate::dht::id::NodeId;
use crate::dht::metrics::DhtMetrics;
use crate::dht::routing::{InsertOutcome, PingFailureOutcome, TableView};
use crate::time::Instant;
use vstd::prelude::*;

verus! {

/// A full bucket never gives up a node because it heard of another: where an insert has to wait
/// for an answer, the table holds just the nodes it held, and the node that has to answer is
/// one of them.
pub proof fn law_full_bucket_keeps_its_nodes(table: TableView, node_id: NodeId, now: Instant)
    requires
        table.wf(),
        table.insert_outcome(node_id) is PendingPing,
    ensures
        table.after_insert(node_id, now).nodes() == table.nodes(),
        table.contains(table.insert_outcome(node_id)->PendingPing_stale_node),
        !table.contains(node_id),
{
    let b = table.bucket_for(node_id)->0 as int;
    let bucket = table.buckets[b];
    assert(bucket.wf(table.local_id, table.k, b));
    contact::lemma_holds(bucket.nodes, 0);
    let after = table.after_insert(node_id, now);
    lemma_same_nodes(table.buckets, after.buckets);
}

/// Buckets with the same nodes list the same nodes.
proof fn lemma_same_nodes(a: Seq<BucketView>, b: Seq<BucketView>)
    requires
        a.len() == b.len(),
        forall|i: int| 0 <= i < a.len() ==> (#[trigger] a[i]).nodes == b[i].nodes,
    ensures
        crate::dht::routing::nodes_of(a) == crate::dht::routing::nodes_of(b),
    decreases a.len(),
{
    if a.len() > 0 {
        assert(a.last().nodes == b.last().nodes);
        assert forall|i: int| 0 <= i < a.drop_last().len() implies (#[trigger] a.drop_last()[i]).nodes
            == b.drop_last()[i].nodes by {
            assert(a[i].nodes == b[i].nodes);
        }
        lemma_same_nodes(a.drop_last(), b.drop_last());
    }
}

/// A node that was inserted, or was there already, is held as active and stands last in its
/// bucket, and every other node is held as before.
pub proof fn law_insert_makes_present(table: TableView, node_id: NodeId, now: Instant)
    requires
        table.wf(),
        table.insert_outcome(node_id) is Inserted || table.insert_outcome(node_id)
            is AlreadyPresent,
    ensures
        table.after_insert(node_id, now).status(node_id) == Some(NodeStatus::Active),
        table.after_insert(node_id, now).buckets[table.bucket_for(node_id)->0 as int].nodes.last()
            == contact::fresh(node_id, now),
        forall|other: NodeId|
            other != node_id ==> (#[trigger] table.after_insert(node_id, now).contains(other)
                <==> table.contains(other)),
{
    let b = table.bucket_for(node_id)->0 as int;
    let bucket = table.buckets[b];
    let after = table.after_insert(node_id, now);
    assert(bucket.wf(table.local_id, table.k, b));
    contact::lemma_without(bucket.nodes, node_id);
    let others = contact::without(bucket.nodes, node_id);
    contact::lemma_pushed(others, contact::fresh(node_id, now));
    assert(after.buckets[b].nodes == others.push(contact::fresh(node_id, now)));
    assert forall|other: NodeId| other != node_id implies (#[trigger] after.contains(other)
        <==> table.contains(other)) by {
        lemma_moved_last(bucket.nodes, node_id, now, other);
    }
}

/// To move a node to the end of a list changes for no other node whether it is listed.
proof fn lemma_moved_last(nodes: Seq<Contact>, node_id: NodeId, now: Instant, other: NodeId)
    requires
        contact::distinct(nodes),
        other != node_id,
    ensures
        contact::holds(
            contact::without(nodes, node_id).push(contact::fresh(node_id, now)),
            other,
        ) <==> contact::holds(nodes, other),
{
    let others = contact::without(nodes, node_id);
    contact::lemma_without(nodes, node_id);
    contact::lemma_pushed(others, contact::fresh(node_id, now));
    assert(contact::holds(others, other) <==> contact::holds(nodes, other));
}

/// A new node that is heard of twice leaves the buckets as if it had been heard of once, at the
/// later moment.
pub proof fn law_insert_is_idempotent(table: TableView, node_id: NodeId, first: Instant, second: Instant)
    requires
        table.wf(),
        table.insert_outcome(node_id) is Inserted,
    ensures
        table.after_insert(node_id, first).insert_outcome(node_id)
            == (InsertOutcome::AlreadyPresent { bucket_index: table.bucket_for(node_id)->0 }),
        table.after_insert(node_id, first).after_insert(node_id, second).buckets
            == table.after_insert(node_id, second).buckets,
{
    let b = table.bucket_for(node_id)->0 as int;
    let nodes = table.buckets[b].nodes;
    assert(table.buckets[b].wf(table.local_id, table.k, b));
    contact::lemma_pushed(nodes, contact::fresh(node_id, first));
    let after = table.after_insert(node_id, first);
    assert(after.buckets[b].nodes == nodes.push(contact::fresh(node_id, first)));
    assert(contact::without(after.buckets[b].nodes, node_id) =~= nodes);
    assert(after.after_insert(node_id, second).buckets =~= table.after_insert(
        node_id,
        second,
    ).buckets);
}

/// A node that answers is active, stands last in its bucket, and is waited for no more; the node
/// that waited for its place is no replacement any more. Every node that was held still is.
pub proof fn law_answer_keeps_the_node(table: TableView, node_id: NodeId, now: Instant)
    requires
        table.wf(),
        table.contains(node_id),
    ensures
        table.after_answer(node_id, now).status(node_id) == Some(NodeStatus::Active),
        forall|other: NodeId| #[trigger]
            table.after_answer(node_id, now).contains(other) <==> table.contains(other),
        ({
            let b = table.bucket_for(node_id)->0 as int;
            let before = table.buckets[b];
            let after = table.after_answer(node_id, now).buckets[b];
            &&& after.nodes.last() == contact::fresh(node_id, now)
            &&& !after.awaits(node_id)
            &&& before.awaits(node_id) ==> !contact::holds(
                after.replacements,
                before.pending->0.new_candidate.node_id,
            )
        }),
{
    let b = table.bucket_for(node_id)->0 as int;
    let bucket = table.buckets[b];
    let after = table.after_answer(node_id, now);
    assert(bucket.wf(table.local_id, table.k, b));
    contact::lemma_position(bucket.nodes, node_id);
    contact::lemma_without(bucket.nodes, node_id);
    let others = contact::without(bucket.nodes, node_id);
    contact::lemma_pushed(others, contact::fresh(node_id, now));
    assert(after.buckets[b].nodes == others.push(contact::fresh(node_id, now)));
    if bucket.awaits(node_id) {
        contact::lemma_without(bucket.replacements, bucket.pending->0.new_candidate.node_id);
    }
    assert forall|other: NodeId| #[trigger] after.contains(other) <==> table.contains(other) by {
        if other != node_id {
            lemma_moved_last(bucket.nodes, node_id, now, other);
        }
    }
}

/// A node that does not answer is suspected first and still held, first in its bucket. When it
/// does not answer again it is gone, unless it is itself the next of the replacements; no other
/// node goes with it, and the next of the replacements is held.
pub proof fn law_second_failure_evicts(
    table: TableView,
    node_id: NodeId,
    first: Instant,
    second: Instant,
)
    requires
        table.wf(),
        table.status(node_id) == Some(NodeStatus::Active),
    ensures
        ({
            let suspected = table.after_failure(node_id, first);
            let evicted = suspected.after_failure(node_id, second);
            let b = table.bucket_for(node_id)->0;
            &&& table.failure_outcome(node_id) == (PingFailureOutcome::Suspected {
                bucket_index: b,
                node_id,
            })
            &&& suspected.status(node_id) == Some(NodeStatus::Suspected)
            &&& suspected.buckets[b as int].nodes[0].node_id == node_id
            &&& suspected.failure_outcome(node_id) == (PingFailureOutcome::Evicted {
                bucket_index: b,
                node_id,
                replaced_with: table.buckets[b as int].promoted(),
            })
            &&& table.buckets[b as int].promoted() != Some(node_id) ==> !evicted.contains(node_id)
            &&& forall|other: NodeId|
                other != node_id && table.contains(other) ==> #[trigger] evicted.contains(other)
            &&& table.buckets[b as int].promoted() matches Some(next) ==> evicted.contains(next)
        }),
{
    let b = table.bucket_for(node_id)->0;
    let bucket = table.buckets[b as int];
    assert(bucket.wf(table.local_id, table.k, b as int));
    contact::lemma_position(bucket.nodes, node_id);
    contact::lemma_without(bucket.nodes, node_id);
    let others = contact::without(bucket.nodes, node_id);
    let suspected = table.after_failure(node_id, first);
    let marked = suspected.buckets[b as int];
    crate::dht::bucket::lemma_failure_wf(
        bucket,
        table.local_id,
        table.k,
        b as int,
        node_id,
        first,
    );
    contact::lemma_position_unique(marked.nodes, 0);
    assert(contact::without(marked.nodes, node_id) =~= others);
    let evicted = suspected.after_failure(node_id, second);
    match bucket.promoted() {
        Some(next) => {
            assert(marked.promoted() == Some(next));
            assert(bucket.replacements[0].node_id == next);
            if !contact::holds(others, next) {
                contact::lemma_pushed(others, contact::fresh(next, second));
            }
        },
        None => {},
    }
    assert(!contact::holds(others, node_id));
    assert forall|other: NodeId| other != node_id && table.contains(other) implies
        #[trigger] evicted.contains(other) by {
        assert(contact::holds(others, other) <==> contact::holds(bucket.nodes, other));
    }
    assert(bucket.promoted() matches Some(next) ==> evicted.contains(next));
    assert(bucket.promoted() != Some(node_id) ==> !evicted.contains(node_id));
}

/// Where a dead node may be replaced it is gone afterwards, unless it is its own candidate; the
/// candidate is held and active where it was not held before, and no other node comes or goes.
pub proof fn law_replace_swaps(table: TableView, dead: NodeId, candidate: NodeId, now: Instant)
    requires
        table.wf(),
        table.can_replace(dead, candidate),
    ensures
        ({
            let after = table.after_replace(dead, candidate, now);
            &&& after.contains(candidate)
            &&& dead != candidate ==> !after.contains(dead)
            &&& !table.contains(candidate) ==> after.status(candidate) == Some(NodeStatus::Active)
            &&& forall|other: NodeId|
                other != dead && other != candidate ==> (#[trigger] after.contains(other)
                    <==> table.contains(other))
        }),
{
    let b = table.bucket_for(dead)->0 as int;
    let bucket = table.buckets[b];
    assert(bucket.wf(table.local_id, table.k, b));
    contact::lemma_without(bucket.nodes, dead);
    let others = contact::without(bucket.nodes, dead);
    if !contact::holds(others, candidate) {
        contact::lemma_pushed(others, contact::fresh(candidate, now));
    }
    let after = table.after_replace(dead, candidate, now);
    assert(contact::holds(others, candidate) ==> contact::holds(bucket.nodes, candidate));
    assert forall|other: NodeId| other != dead && other != candidate implies (
    #[trigger] after.contains(other) <==> table.contains(other)) by {
        assert(contact::holds(others, other) <==> contact::holds(bucket.nodes, other));
    }
}

/// The status of a node among contacts.
spec fn status_in(contacts: Seq<Contact>, node_id: NodeId) -> Option<NodeStatus> {
    match contact::position(contacts, node_id) {
        Some(i) => Some(contacts[i].status),
        None => None,
    }
}

/// Without a node, or with a contact of it added at either end, every other node has the status
/// that it had.
proof fn lemma_other_status(contacts: Seq<Contact>, added: Contact, other: NodeId)
    requires
        contact::distinct(contacts),
        other != added.node_id,
    ensures
        ({
            let rest = contact::without(contacts, added.node_id);
            &&& status_in(rest, other) == status_in(contacts, other)
            &&& status_in(rest.push(added), other) == status_in(contacts, other)
            &&& status_in(seq![added] + rest, other) == status_in(contacts, other)
        }),
{
    let rest = contact::without(contacts, added.node_id);
    contact::lemma_without(contacts, added.node_id);
    contact::lemma_position(contacts, added.node_id);
    contact::lemma_pushed(rest, added);
    contact::lemma_position(rest, other);
    contact::lemma_position(rest, added.node_id);
    contact::lemma_position(contacts, other);
    let front = seq![added] + rest;
    contact::lemma_position(front, other);
    assert(contact::holds(rest, other) <==> contact::holds(contacts, other));
    if contact::holds(contacts, other) {
        let p = contact::position(contacts, other)->0;
        let q = match contact::position(contacts, added.node_id) {
            Some(at) => if p < at {
                p
            } else {
                p - 1
            },
            None => p,
        };
        assert(rest[q] == contacts[p]);
        contact::lemma_position_unique(rest, q);
        assert(front[q + 1] == rest[q]);
        assert(contact::distinct(front));
        contact::lemma_position_unique(front, q + 1);
    } else if contact::holds(front, other) {
        let q = contact::position(front, other)->0;
        assert(rest[q - 1].node_id == other);
    }
}

/// The nodes of a bucket have, in the table, the status of their contacts.
proof fn lemma_listed_status(table: TableView, b: int, i: int)
    requires
        table.wf(),
        0 <= b < 256,
        0 <= i < table.buckets[b].nodes.len(),
    ensures
        table.bucket_for(table.buckets[b].nodes[i].node_id) == Some(b as u8),
        table.status(table.buckets[b].nodes[i].node_id) == Some(table.buckets[b].nodes[i].status),
{
    assert(table.buckets[b].wf(table.local_id, table.k, b));
    contact::lemma_position_unique(table.buckets[b].nodes, i);
}

/// The nodes that have a status are those that stand in their bucket, and in every bucket the
/// suspected nodes stand before the active ones.
pub proof fn law_suspected_nodes_stand_first(table: TableView, node_id: NodeId, b: u8, p: int, q: int)
    requires
        table.wf(),
    ensures
        table.status(node_id) is Some <==> table.contains(node_id),
        table.status(node_id) is Some <==> table.bucket_for(node_id) is Some && contact::ids(
            table.buckets[table.bucket_for(node_id)->0 as int].nodes,
        ).contains(node_id),
        ({
            let ids = contact::ids(table.buckets[b as int].nodes);
            0 <= p < q < ids.len() && table.status(ids[q]) == Some(NodeStatus::Suspected)
                ==> table.status(ids[p]) == Some(NodeStatus::Suspected)
        }),
{
    if let Some(own) = table.bucket_for(node_id) {
        let nodes = table.buckets[own as int].nodes;
        contact::lemma_position(nodes, node_id);
        if contact::ids(nodes).contains(node_id) {
            let w = choose|w: int| 0 <= w < nodes.len() && contact::ids(nodes)[w] == node_id;
            assert(nodes[w].node_id == node_id);
        }
        if contact::holds(nodes, node_id) {
            let w = contact::position(nodes, node_id)->0;
            assert(contact::ids(nodes)[w] == node_id);
        }
    }
    let nodes = table.buckets[b as int].nodes;
    assert(table.buckets[b as int].wf(table.local_id, table.k, b as int));
    if 0 <= p < q < nodes.len() {
        lemma_listed_status(table, b as int, p);
        lemma_listed_status(table, b as int, q);
    }
}

/// What a failure to answer does. To a node that the table does not hold: nothing at all. To an
/// active node: it is suspected, goes to the front of its bucket, and every other status stays.
/// To a suspected node: it leaves its bucket; the oldest replacement, if there is one, leaves the
/// replacements and comes in at the end as active, unless it is in the bucket already; every other
/// status stays. No other bucket changes.
pub proof fn law_failure_is_exact(table: TableView, node_id: NodeId, now: Instant)
    requires
        table.wf(),
    ensures
        ({
            let after = table.after_failure(node_id, now);
            let outcome = table.failure_outcome(node_id);
            &&& outcome is NotFound <==> table.status(node_id) is None
            &&& outcome is NotFound ==> after == table
            &&& table.bucket_for(node_id) matches Some(b) ==> {
                let before = table.buckets[b as int];
                let bucket = after.buckets[b as int];
                let others = contact::without(before.nodes, node_id);
                &&& forall|i: int|
                    0 <= i < table.buckets.len() && i != b ==> #[trigger] after.buckets[i]
                        == table.buckets[i]
                &&& table.status(node_id) == Some(NodeStatus::Active) ==> {
                    &&& outcome == (PingFailureOutcome::Suspected { bucket_index: b, node_id })
                    &&& contact::ids(bucket.nodes) == seq![node_id] + contact::ids(others)
                    &&& bucket.replacements == before.replacements
                    &&& after.status(node_id) == Some(NodeStatus::Suspected)
                    &&& forall|other: NodeId|
                        other != node_id ==> #[trigger] after.status(other) == table.status(other)
                    &&& table.metrics.nodes_suspected < u64::MAX ==> after.metrics == (DhtMetrics {
                        nodes_suspected: (table.metrics.nodes_suspected + 1) as u64,
                        ..table.metrics
                    })
                }
                &&& table.status(node_id) == Some(NodeStatus::Suspected) ==> {
                    let next = before.promoted();
                    let comes = next is Some && !contact::holds(others, next->0);
                    &&& outcome == (PingFailureOutcome::Evicted {
                        bucket_index: b,
                        node_id,
                        replaced_with: next,
                    })
                    &&& next is None <==> before.replacements.len() == 0
                    &&& bucket.nodes == if comes {
                        others.push(contact::fresh(next->0, now))
                    } else {
                        others
                    }
                    &&& bucket.replacements == if next is Some {
                        before.replacements.drop_first()
                    } else {
                        before.replacements
                    }
                    &&& comes ==> after.status(next->0) == Some(NodeStatus::Active)
                    &&& forall|other: NodeId|
                        other != node_id && !(comes && other == next->0)
                            ==> #[trigger] after.status(other) == table.status(other)
                    &&& table.metrics.nodes_evicted < u64::MAX ==> after.metrics == (DhtMetrics {
                        nodes_evicted: (table.metrics.nodes_evicted + 1) as u64,
                        ..table.metrics
                    })
                }
            }
        }),
{
    let after = table.after_failure(node_id, now);
    if let Some(b) = table.bucket_for(node_id) {
        let before = table.buckets[b as int];
        let bucket = after.buckets[b as int];
        let others = contact::without(before.nodes, node_id);
        assert(before.wf(table.local_id, table.k, b as int));
        contact::lemma_position(before.nodes, node_id);
        contact::lemma_without(before.nodes, node_id);
        if table.status(node_id) == Some(NodeStatus::Active) {
            let failed = before.nodes[contact::position(before.nodes, node_id)->0];
            let marked = Contact { status: NodeStatus::Suspected, ..failed };
            crate::dht::bucket::lemma_failure_wf(
                before,
                table.local_id,
                table.k,
                b as int,
                node_id,
                now,
            );
            assert(bucket.nodes == seq![marked] + others);
            assert(contact::ids(bucket.nodes) =~= seq![node_id] + contact::ids(others));
            contact::lemma_position_unique(bucket.nodes, 0);
            assert forall|other: NodeId| other != node_id implies #[trigger] after.status(other)
                == table.status(other) by {
                lemma_other_status(before.nodes, marked, other);
            }
        } else if table.status(node_id) == Some(NodeStatus::Suspected) {
            let next = before.promoted();
            let comes = next is Some && !contact::holds(others, next->0);
            if comes {
                contact::lemma_pushed(others, contact::fresh(next->0, now));
                assert(before.replacements[0].node_id == next->0);
                assert(after.bucket_for(next->0) == Some(b));
            }
            assert forall|other: NodeId|
                other != node_id && !(comes && other == next->0) implies #[trigger] after.status(
                other,
            ) == table.status(other) by {
                lemma_other_status(before.nodes, contact::fresh(node_id, now), other);
                if comes {
                    let came = contact::fresh(next->0, now);
                    contact::lemma_position(others, next->0);
                    assert(contact::without(others, next->0) == others);
                    lemma_other_status(others, came, other);
                }
            }
        }
    }
}

/// What the order to replace a dead node does. Where it may not be followed no bucket changes.
/// Where it may, the dead node leaves its bucket, the candidate leaves the replacements and comes
/// in at the end as active, unless it is in the bucket already, the bucket waits for no node any
/// more, and every other status stays. No other bucket changes.
pub proof fn law_replace_is_exact(table: TableView, dead: NodeId, candidate: NodeId, now: Instant)
    requires
        table.wf(),
    ensures
        ({
            let after = table.after_replace(dead, candidate, now);
            &&& !table.can_replace(dead, candidate) ==> {
                &&& after.buckets == table.buckets
                &&& table.metrics.replace_stale_miss < u64::MAX ==> after.metrics == (DhtMetrics {
                    replace_stale_miss: (table.metrics.replace_stale_miss + 1) as u64,
                    ..table.metrics
                })
            }
            &&& table.can_replace(dead, candidate) ==> {
                let b = table.bucket_for(dead)->0 as int;
                let others = contact::without(table.buckets[b].nodes, dead);
                let comes = !contact::holds(others, candidate);
                &&& forall|i: int|
                    0 <= i < table.buckets.len() && i != b ==> #[trigger] after.buckets[i]
                        == table.buckets[i]
                &&& after.buckets[b].nodes == if comes {
                    others.push(contact::fresh(candidate, now))
                } else {
                    others
                }
                &&& after.buckets[b].replacements == contact::without(
                    table.buckets[b].replacements,
                    candidate,
                )
                &&& after.buckets[b].pending is None
                &&& comes ==> after.status(candidate) == Some(NodeStatus::Active)
                &&& forall|other: NodeId|
                    other != dead && !(comes && other == candidate) ==> #[trigger] after.status(
                        other,
                    ) == table.status(other)
                &&& table.metrics.replace_stale_ok < u64::MAX ==> after.metrics == (DhtMetrics {
                    replace_stale_ok: (table.metrics.replace_stale_ok + 1) as u64,
                    ..table.metrics
                })
            }
        }),
{
    if table.can_replace(dead, candidate) {
        let after = table.after_replace(dead, candidate, now);
        let b = table.bucket_for(dead)->0 as int;
        let before = table.buckets[b];
        let others = contact::without(before.nodes, dead);
        let comes = !contact::holds(others, candidate);
        assert(before.wf(table.local_id, table.k, b));
        contact::lemma_without(before.nodes, dead);
        if comes {
            contact::lemma_pushed(others, contact::fresh(candidate, now));
        }
        assert forall|other: NodeId|
            other != dead && !(comes && other == candidate) implies #[trigger] after.status(other)
            == table.status(other) by {
            lemma_other_status(before.nodes, contact::fresh(dead, now), other);
            if comes {
                assert(contact::without(others, candidate) == others);
                lemma_other_status(others, contact::fresh(candidate, now), other);
            }
        }
    }
}

/// A node that the table holds is the closest to itself: a lookup of it finds it first.
pub proof fn law_lookup_finds_held_target(
    table: TableView,
    target: NodeId,
    limit: nat,
    picked: Seq<NodeId>,
)
    requires
        table.wf(),
        table.contains(target),
        limit > 0,
        closest::is_closest(picked, table.nodes(), target, limit),
    ensures
        picked.len() > 0,
        picked[0] == target,
{
    crate::dht::routing::law_nodes_are_those_held(table);
    assert(table.nodes().contains(target));
    id::law_bucket_bounds_distance(target, target);
    assert(id::distance(target, target) == 0);
    if !picked.contains(target) {
        assert(table.nodes().len() > limit);
        assert(id::distance(picked[0], target) < id::distance(target, target));
    }
    let at = choose|at: int| 0 <= at < picked.len() && picked[at] == target;
    if at > 0 {
        assert(id::distance(picked[0], target) < id::distance(picked[at], target));
    }
}

/// Two lists of the nodes closest to a target are the same list.
pub proof fn law_closest_is_unique(
    a: Seq<NodeId>,
    b: Seq<NodeId>,
    nodes: Seq<NodeId>,
    target: NodeId,
    limit: nat,
)
    requires
        closest::is_closest(a, nodes, target, limit),
        closest::is_closest(b, nodes, target, limit),
    ensures
        a == b,
{
    assert forall|i: int| 0 <= i < a.len() implies a[i] == b[i] by {
        lemma_same_pick(a, b, nodes, target, limit, i);
    }
    assert(a =~= b);
}

/// Two lists of the nodes closest to a target agree at every place.
proof fn lemma_same_pick(
    a: Seq<NodeId>,
    b: Seq<NodeId>,
    nodes: Seq<NodeId>,
    target: NodeId,
    limit: nat,
    i: int,
)
    requires
        closest::is_closest(a, nodes, target, limit),
        closest::is_closest(b, nodes, target, limit),
        0 <= i < a.len(),
    ensures
        a[i] == b[i],
    decreases i,
{
    assert forall|j: int| 0 <= j < i implies a[j] == b[j] by {
        lemma_same_pick(a, b, nodes, target, limit, j);
    }
    lemma_pick_not_before(a, b, nodes, target, limit, i);
    lemma_pick_not_before(b, a, nodes, target, limit, i);
    id::law_distance_is_injective(a[i], b[i], target);
}

/// Where two lists of closest nodes agree so far, the next of one is not nearer than that of the
/// other.
proof fn lemma_pick_not_before(
    a: Seq<NodeId>,
    b: Seq<NodeId>,
    nodes: Seq<NodeId>,
    target: NodeId,
    limit: nat,
    i: int,
)
    requires
        closest::is_closest(a, nodes, target, limit),
        closest::is_closest(b, nodes, target, limit),
        0 <= i < a.len(),
        forall|j: int| 0 <= j < i ==> a[j] == b[j],
    ensures
        id::distance(a[i], target) <= id::distance(b[i], target),
{
    let other = b[i];
    assert(nodes.contains(other));
    if a.contains(other) {
        let at = choose|at: int| 0 <= at < a.len() && a[at] == other;
        if at < i {
            assert(id::distance(b[at], target) < id::distance(b[i], target));
        } else if at > i {
            assert(id::distance(a[i], target) < id::distance(a[at], target));
        }
    } else {
        assert(id::distance(a[i], target) < id::distance(other, target));
    }
}

} // verus!
