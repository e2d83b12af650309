//! A bucket of the routing table: nodes at similar distance, least recently heard of first.

use crate::dht::contact;
use crate::dht::contact::{find, Contact, NodeStatus};
use crate::dht::id;
use crate::dht::id::NodeId;
use crate::time::Instant;
use std::collections::VecDeque;
use vstd::prelude::*;

verus! {

/// A node that is being asked whether it lives, and the node that takes its place if not.
#[derive(Debug, Clone, Copy, PartialEq, Eq)]
pub struct PendingReplacement {
    pub stale_node: NodeId,
    pub new_candidate: Contact,
}

/// A bucket as the contracts see it.
#[verifier::ext_equal]
pub struct BucketView {
    /// The nodes of the bucket, least recently heard of first.
    pub nodes: Seq<Contact>,
    /// Nodes that found the bucket full, oldest first.
    pub replacements: Seq<Contact>,
    pub pending: Option<PendingReplacement>,
    pub last_refreshed: Instant,
}

/// A bucket of the routing table.
#[derive(Debug, Clone)]
pub(crate) struct Bucket {
    pub(crate) nodes: VecDeque<Contact>,
    pub(crate) replacements: VecDeque<Contact>,
    pub(crate) pending: Option<PendingReplacement>,
    pub(crate) last_refreshed: Instant,
}

impl View for Bucket {
    type V = BucketView;

    open(crate) spec fn view(&self) -> BucketView {
        BucketView {
            nodes: self.nodes@,
            replacements: self.replacements@,
            pending: self.pending,
            last_refreshed: self.last_refreshed,
        }
    }
}

impl BucketView {
    /// No list holds more than `k` nodes or a node twice, every node listed belongs to this bucket
    /// of a table whose own node is `local_id`, and suspected nodes stand before active ones.
    pub open spec fn wf(self, local_id: NodeId, k: nat, index: int) -> bool {
        &&& self.nodes.len() <= k
        &&& self.replacements.len() <= k
        &&& contact::distinct(self.nodes)
        &&& contact::distinct(self.replacements)
        &&& belong(self.nodes, local_id, index)
        &&& belong(self.replacements, local_id, index)
        &&& contact::suspects_first(self.nodes)
    }

    /// A bucket that no node was put in.
    pub open spec fn empty(last_refreshed: Instant) -> BucketView {
        BucketView {
            nodes: Seq::empty(),
            replacements: Seq::empty(),
            pending: None,
            last_refreshed,
        }
    }

    /// The bucket once a node was heard of: a node that it holds moves to the end, a new one is
    /// put at the end while there is room. A full bucket keeps its nodes; the new node joins the
    /// replacements, where the oldest makes room for it, and waits for the first node to be asked.
    pub open spec fn after_insert(self, node_id: NodeId, k: nat, now: Instant) -> BucketView {
        let candidate = contact::fresh(node_id, now);
        if contact::holds(self.nodes, node_id) {
            BucketView {
                nodes: contact::without(self.nodes, node_id).push(candidate),
                last_refreshed: now,
                ..self
            }
        } else if self.nodes.len() >= k {
            BucketView {
                replacements: if contact::holds(self.replacements, node_id) {
                    self.replacements
                } else if self.replacements.len() >= k {
                    self.replacements.drop_first().push(candidate)
                } else {
                    self.replacements.push(candidate)
                },
                pending: Some(
                    PendingReplacement {
                        stale_node: self.nodes[0].node_id,
                        new_candidate: candidate,
                    },
                ),
                ..self
            }
        } else {
            BucketView { nodes: self.nodes.push(candidate), last_refreshed: now, ..self }
        }
    }

    /// Whether the bucket waits for this node to answer.
    pub open spec fn awaits(self, node_id: NodeId) -> bool {
        self.pending matches Some(pending) && pending.stale_node == node_id
    }

    /// The bucket once one of its nodes answered: the node moves to the end, and a node that
    /// waited for its place is forgotten.
    pub open spec fn after_answer(self, node_id: NodeId, now: Instant) -> BucketView {
        BucketView {
            nodes: contact::without(self.nodes, node_id).push(contact::fresh(node_id, now)),
            replacements: if self.awaits(node_id) {
                contact::without(self.replacements, self.pending->0.new_candidate.node_id)
            } else {
                self.replacements
            },
            pending: if self.awaits(node_id) {
                None
            } else {
                self.pending
            },
            last_refreshed: now,
        }
    }

    /// The bucket once one of its nodes failed to answer: the first time it becomes suspected
    /// and moves to the front; then it goes, and the oldest replacement takes its place.
    pub open spec fn after_failure(self, node_id: NodeId, now: Instant) -> BucketView {
        let failed = self.nodes[contact::position(self.nodes, node_id)->0];
        let others = contact::without(self.nodes, node_id);
        if failed.status == NodeStatus::Active {
            BucketView {
                nodes: seq![Contact { status: NodeStatus::Suspected, ..failed }] + others,
                last_refreshed: now,
                ..self
            }
        } else {
            BucketView {
                nodes: match self.promoted() {
                    Some(next) => if contact::holds(others, next) {
                        others
                    } else {
                        others.push(contact::fresh(next, now))
                    },
                    None => others,
                },
                replacements: match self.promoted() {
                    Some(_) => self.replacements.drop_first(),
                    None => self.replacements,
                },
                pending: if self.awaits(node_id) {
                    None
                } else {
                    self.pending
                },
                last_refreshed: now,
            }
        }
    }

    /// The replacement that is next to be put in the bucket.
    pub open spec fn promoted(self) -> Option<NodeId> {
        if self.replacements.len() > 0 {
            Some(self.replacements[0].node_id)
        } else {
            None
        }
    }

    /// The bucket once a dead node was replaced: the dead node goes, and the candidate stands in
    /// the bucket instead of among the replacements.
    pub open spec fn after_replace(self, dead: NodeId, candidate: NodeId, now: Instant) -> BucketView {
        let others = contact::without(self.nodes, dead);
        BucketView {
            nodes: if contact::holds(others, candidate) {
                others
            } else {
                others.push(contact::fresh(candidate, now))
            },
            replacements: contact::without(self.replacements, candidate),
            pending: None,
            last_refreshed: now,
        }
    }
}

/// Every contact belongs to bucket `index` of a table whose own node is `local_id`.
pub open spec fn belong(contacts: Seq<Contact>, local_id: NodeId, index: int) -> bool {
    forall|i: int|
        0 <= i < contacts.len() ==> id::bucket_of(
            id::xor_bytes(local_id@, (#[trigger] contacts[i]).node_id@),
        ) == Some(index as u8)
}

/// What belongs to a bucket still does without one node, and with one more that belongs to it.
proof fn lemma_belong(contacts: Seq<Contact>, local_id: NodeId, index: int)
    requires
        belong(contacts, local_id, index),
        contact::distinct(contacts),
    ensures
        forall|node_id: NodeId|
            belong(#[trigger] contact::without(contacts, node_id), local_id, index),
        forall|c: Contact|
            id::bucket_of(id::xor_bytes(local_id@, c.node_id@)) == Some(index as u8) ==> belong(
                #[trigger] contacts.push(c),
                local_id,
                index,
            ),
{
    assert forall|node_id: NodeId|
        belong(#[trigger] contact::without(contacts, node_id), local_id, index) by {
        contact::lemma_without(contacts, node_id);
        let rest = contact::without(contacts, node_id);
        assert forall|i: int| 0 <= i < rest.len() implies id::bucket_of(
            id::xor_bytes(local_id@, (#[trigger] rest[i]).node_id@),
        ) == Some(index as u8) by {
            let j = choose|j: int| 0 <= j < contacts.len() && contacts[j] == rest[i];
            assert(contacts.contains(rest[i]));
            assert(contacts[j].node_id == rest[i].node_id);
        }
    }
}

/// An insert keeps a bucket well-formed.
pub proof fn lemma_insert_wf(
    bucket: BucketView,
    local_id: NodeId,
    k: nat,
    index: int,
    node_id: NodeId,
    now: Instant,
)
    requires
        k > 0,
        bucket.wf(local_id, k, index),
        id::bucket_of(id::xor_bytes(local_id@, node_id@)) == Some(index as u8),
    ensures
        bucket.after_insert(node_id, k, now).wf(local_id, k, index),
{
    let candidate = contact::fresh(node_id, now);
    contact::lemma_suspects_first(bucket.nodes, node_id);
    lemma_belong(bucket.nodes, local_id, index);
    lemma_belong(bucket.replacements, local_id, index);
    if contact::holds(bucket.nodes, node_id) {
        let others = contact::without(bucket.nodes, node_id);
        contact::lemma_without(bucket.nodes, node_id);
        contact::lemma_pushed(others, candidate);
        lemma_belong(others, local_id, index);
    } else if bucket.nodes.len() >= k {
        if !contact::holds(bucket.replacements, node_id) {
            contact::lemma_position(bucket.replacements, node_id);
            if bucket.replacements.len() >= k {
                let rest = bucket.replacements.drop_first();
                contact::lemma_position(rest, node_id);
                contact::lemma_pushed(rest, candidate);
                lemma_belong(rest, local_id, index);
            } else {
                contact::lemma_pushed(bucket.replacements, candidate);
            }
        }
    } else {
        contact::lemma_pushed(bucket.nodes, candidate);
    }
}

/// An answer keeps a bucket well-formed.
pub proof fn lemma_answer_wf(
    bucket: BucketView,
    local_id: NodeId,
    k: nat,
    index: int,
    node_id: NodeId,
    now: Instant,
)
    requires
        bucket.wf(local_id, k, index),
        contact::holds(bucket.nodes, node_id),
    ensures
        bucket.after_answer(node_id, now).wf(local_id, k, index),
{
    let others = contact::without(bucket.nodes, node_id);
    contact::lemma_suspects_first(bucket.nodes, node_id);
    contact::lemma_position(bucket.nodes, node_id);
    contact::lemma_without(bucket.nodes, node_id);
    contact::lemma_pushed(others, contact::fresh(node_id, now));
    lemma_belong(bucket.nodes, local_id, index);
    lemma_belong(others, local_id, index);
    lemma_belong(bucket.replacements, local_id, index);
    if bucket.awaits(node_id) {
        contact::lemma_without(bucket.replacements, bucket.pending->0.new_candidate.node_id);
    }
}

/// A failure to answer keeps a bucket well-formed.
pub proof fn lemma_failure_wf(
    bucket: BucketView,
    local_id: NodeId,
    k: nat,
    index: int,
    node_id: NodeId,
    now: Instant,
)
    requires
        bucket.wf(local_id, k, index),
        contact::holds(bucket.nodes, node_id),
    ensures
        bucket.after_failure(node_id, now).wf(local_id, k, index),
{
    let others = contact::without(bucket.nodes, node_id);
    let at = contact::position(bucket.nodes, node_id)->0;
    contact::lemma_suspects_first(bucket.nodes, node_id);
    contact::lemma_position(bucket.nodes, node_id);
    contact::lemma_without(bucket.nodes, node_id);
    contact::lemma_position(others, node_id);
    lemma_belong(bucket.nodes, local_id, index);
    lemma_belong(others, local_id, index);
    if bucket.nodes[at].status == NodeStatus::Active {
    } else {
        match bucket.promoted() {
            Some(next) => {
                assert(bucket.replacements[0].node_id == next);
                if !contact::holds(others, next) {
                    contact::lemma_pushed(others, contact::fresh(next, now));
                }
            },
            None => {},
        }
    }
}

/// A replacement keeps a bucket well-formed.
pub proof fn lemma_replace_wf(
    bucket: BucketView,
    local_id: NodeId,
    k: nat,
    index: int,
    dead: NodeId,
    candidate: NodeId,
    now: Instant,
)
    requires
        bucket.wf(local_id, k, index),
        contact::holds(bucket.nodes, dead),
        id::bucket_of(id::xor_bytes(local_id@, candidate@)) == Some(index as u8),
    ensures
        bucket.after_replace(dead, candidate, now).wf(local_id, k, index),
{
    let others = contact::without(bucket.nodes, dead);
    contact::lemma_suspects_first(bucket.nodes, dead);
    contact::lemma_without(bucket.nodes, dead);
    contact::lemma_without(bucket.replacements, candidate);
    lemma_belong(bucket.nodes, local_id, index);
    lemma_belong(others, local_id, index);
    lemma_belong(bucket.replacements, local_id, index);
    if !contact::holds(others, candidate) {
        contact::lemma_pushed(others, contact::fresh(candidate, now));
    }
}

/// Removes the first contact of a node, if there is one.
fn remove(contacts: &mut VecDeque<Contact>, node_id: &NodeId) -> (removed: Option<Contact>)
    ensures
        final(contacts)@ == contact::without(old(contacts)@, *node_id),
        removed is Some <==> contact::holds(old(contacts)@, *node_id),
        removed matches Some(c) ==> c == old(contacts)@[contact::position(
            old(contacts)@,
            *node_id,
        )->0],
{
    match find(contacts, node_id) {
        Some(at) => contacts.remove(at),
        None => None,
    }
}

impl Bucket {
    /// An empty bucket.
    pub(crate) fn new(now: Instant) -> (bucket: Bucket)
        ensures
            bucket@ == BucketView::empty(now),
    {
        Bucket {
            nodes: VecDeque::new(),
            replacements: VecDeque::new(),
            pending: None,
            last_refreshed: now,
        }
    }

    /// Hears of a node. Returns the first node of the bucket where the bucket is full of others.
    pub(crate) fn insert(&mut self, node_id: NodeId, k: usize, now: Instant) -> (stale: Option<
        NodeId,
    >)
        requires
            k > 0,
        ensures
            final(self)@ == old(self)@.after_insert(node_id, k as nat, now),
            stale is Some <==> !contact::holds(old(self)@.nodes, node_id) && old(self)@.nodes.len()
                >= k,
            stale matches Some(id) ==> id == old(self)@.nodes[0].node_id,
    {
        let candidate = Contact { node_id, last_seen: now, status: NodeStatus::Active };
        if remove(&mut self.nodes, &node_id).is_some() {
            self.nodes.push_back(candidate);
            self.last_refreshed = now;
            return None;
        }
        if self.nodes.len() >= k {
            if find(&self.replacements, &node_id).is_none() {
                if self.replacements.len() >= k {
                    self.replacements.pop_front();
                }
                self.replacements.push_back(candidate);
            }
            let stale_node = self.nodes[0].node_id;
            self.pending = Some(PendingReplacement { stale_node, new_candidate: candidate });
            return Some(stale_node);
        }
        self.nodes.push_back(candidate);
        self.last_refreshed = now;
        None
    }

    /// Hears from a node of the bucket that it lives. Returns whether the bucket holds it; if
    /// not, nothing changes.
    pub(crate) fn answer(&mut self, node_id: NodeId, now: Instant) -> (held: bool)
        ensures
            held == contact::holds(old(self)@.nodes, node_id),
            final(self)@ == if held {
                old(self)@.after_answer(node_id, now)
            } else {
                old(self)@
            },
    {
        if remove(&mut self.nodes, &node_id).is_none() {
            return false;
        }
        self.nodes.push_back(Contact { node_id, last_seen: now, status: NodeStatus::Active });
        if let Some(pending) = self.pending {
            if pending.stale_node == node_id {
                remove(&mut self.replacements, &pending.new_candidate.node_id);
                self.pending = None;
            }
        }
        self.last_refreshed = now;
        true
    }

    /// Forgets that it waits for a node, if it does.
    fn give_up(&mut self, node_id: NodeId)
        ensures
            final(self)@ == (BucketView {
                pending: if old(self)@.awaits(node_id) {
                    None
                } else {
                    old(self)@.pending
                },
                ..old(self)@
            }),
    {
        if let Some(pending) = self.pending {
            if pending.stale_node == node_id {
                self.pending = None;
            }
        }
    }

    /// Learns that a node of the bucket, removed from it already as `failed`, did not answer a
    /// second time. Returns the replacement that was promoted.
    fn evict(&mut self, failed: Contact, now: Instant) -> (promoted: Option<NodeId>)
        ensures
            promoted == old(self)@.promoted(),
            final(self)@ == (BucketView {
                nodes: match old(self)@.promoted() {
                    Some(next) => if contact::holds(old(self)@.nodes, next) {
                        old(self)@.nodes
                    } else {
                        old(self)@.nodes.push(contact::fresh(next, now))
                    },
                    None => old(self)@.nodes,
                },
                replacements: match old(self)@.promoted() {
                    Some(_) => old(self)@.replacements.drop_first(),
                    None => old(self)@.replacements,
                },
                pending: if old(self)@.awaits(failed.node_id) {
                    None
                } else {
                    old(self)@.pending
                },
                last_refreshed: now,
            }),
    {
        let promoted = match self.replacements.pop_front() {
            Some(next) => {
                if find(&self.nodes, &next.node_id).is_none() {
                    self.nodes.push_back(
                        Contact {
                            node_id: next.node_id,
                            last_seen: now,
                            status: NodeStatus::Active,
                        },
                    );
                }
                Some(next.node_id)
            },
            None => None,
        };
        self.give_up(failed.node_id);
        self.last_refreshed = now;
        promoted
    }

    /// Learns that a node did not answer. Returns the contact it had, and the replacement that
    /// was promoted in its place, where the node was suspected already; if the bucket does not
    /// hold it, nothing changes.
    pub(crate) fn fail(&mut self, node_id: NodeId, now: Instant) -> (failed: Option<
        (Contact, Option<NodeId>),
    >)
        ensures
            failed is Some <==> contact::holds(old(self)@.nodes, node_id),
            final(self)@ == if failed is Some {
                old(self)@.after_failure(node_id, now)
            } else {
                old(self)@
            },
            failed matches Some((c, promoted)) ==> c == old(self)@.nodes[contact::position(
                old(self)@.nodes,
                node_id,
            )->0] && promoted == if c.status == NodeStatus::Active {
                None
            } else {
                old(self)@.promoted()
            },
    {
        proof {
            contact::lemma_position(self.nodes@, node_id);
        }
        let failed = match remove(&mut self.nodes, &node_id) {
            Some(failed) => failed,
            None => {
                return None;
            },
        };
        match failed.status {
            NodeStatus::Active => {
                self.nodes.push_front(
                    Contact {
                        node_id: failed.node_id,
                        last_seen: failed.last_seen,
                        status: NodeStatus::Suspected,
                    },
                );
                self.last_refreshed = now;
                Some((failed, None))
            },
            NodeStatus::Suspected => {
                let promoted = self.evict(failed, now);
                Some((failed, promoted))
            },
        }
    }

    /// Puts a candidate in the place of a dead node. Returns whether it did: the bucket has to
    /// hold the dead node, and must not wait for it on behalf of another candidate. If not,
    /// nothing changes.
    pub(crate) fn replace(&mut self, dead: NodeId, candidate: NodeId, now: Instant) -> (done: bool)
        ensures
            done == (contact::holds(old(self)@.nodes, dead) && !(old(self)@.awaits(dead) && old(
                self,
            )@.pending->0.new_candidate.node_id != candidate)),
            final(self)@ == if done {
                old(self)@.after_replace(dead, candidate, now)
            } else {
                old(self)@
            },
    {
        if let Some(pending) = self.pending {
            if pending.stale_node == dead && pending.new_candidate.node_id != candidate {
                return false;
            }
        }
        if remove(&mut self.nodes, &dead).is_none() {
            return false;
        }
        if find(&self.nodes, &candidate).is_none() {
            self.nodes.push_back(
                Contact { node_id: candidate, last_seen: now, status: NodeStatus::Active },
            );
        }
        remove(&mut self.replacements, &candidate);
        self.pending = None;
        self.last_refreshed = now;
        true
    }
}

} // verus!
