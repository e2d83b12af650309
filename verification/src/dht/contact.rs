//! What a routing table knows of a node, and where a node stands in a list.

use crate::dht::id::NodeId;
use crate::time::Instant;
use std::collections::VecDeque;
use vstd::prelude::*;

verus! {

/// Whether a node has answered of late.
#[derive(Debug, Clone, Copy, PartialEq, Eq, Structural)]
pub enum NodeStatus {
    Active,
    Suspected,
}

/// A node, when it was last heard of, and whether it has answered of late.
#[derive(Debug, Clone, Copy, PartialEq, Eq)]
pub struct Contact {
    pub node_id: NodeId,
    pub last_seen: Instant,
    pub status: NodeStatus,
}

/// The contact of a node that has just been heard of.
pub open spec fn fresh(node_id: NodeId, now: Instant) -> Contact {
    Contact { node_id, last_seen: now, status: NodeStatus::Active }
}

/// Where the first contact of a node stands, if there is one.
pub open spec fn position(contacts: Seq<Contact>, node_id: NodeId) -> Option<int>
    decreases contacts.len(),
{
    if contacts.len() == 0 {
        None
    } else {
        match position(contacts.drop_last(), node_id) {
            Some(i) => Some(i),
            None => if contacts.last().node_id == node_id {
                Some(contacts.len() - 1)
            } else {
                None
            },
        }
    }
}

/// Whether a node is among the contacts.
pub open spec fn holds(contacts: Seq<Contact>, node_id: NodeId) -> bool {
    position(contacts, node_id) is Some
}

/// The contacts, but for the first contact of a node.
pub open spec fn without(contacts: Seq<Contact>, node_id: NodeId) -> Seq<Contact> {
    match position(contacts, node_id) {
        Some(i) => contacts.remove(i),
        None => contacts,
    }
}

/// No node occurs twice.
pub open spec fn distinct(contacts: Seq<Contact>) -> bool {
    forall|i: int, j: int|
        0 <= i < j < contacts.len() ==> contacts[i].node_id != contacts[j].node_id
}

/// Suspected contacts stand before active ones.
pub open spec fn suspects_first(contacts: Seq<Contact>) -> bool {
    forall|i: int, j: int|
        0 <= i < j < contacts.len() && contacts[j].status == NodeStatus::Suspected
            ==> contacts[i].status == NodeStatus::Suspected
}

/// The identifiers of the contacts, in order.
pub open spec fn ids(contacts: Seq<Contact>) -> Seq<NodeId> {
    contacts.map_values(|c: Contact| c.node_id)
}

/// The position of a node is that of its first contact, and there is none without a contact.
pub proof fn lemma_position(contacts: Seq<Contact>, node_id: NodeId)
    ensures
        match position(contacts, node_id) {
            Some(i) => {
                &&& 0 <= i < contacts.len()
                &&& contacts[i].node_id == node_id
                &&& forall|j: int| 0 <= j < i ==> contacts[j].node_id != node_id
            },
            None => forall|j: int| 0 <= j < contacts.len() ==> contacts[j].node_id != node_id,
        },
    decreases contacts.len(),
{
    if contacts.len() > 0 {
        let rest = contacts.drop_last();
        lemma_position(rest, node_id);
        assert forall|j: int| 0 <= j < rest.len() implies rest[j] == contacts[j] by {}
        if position(rest, node_id) is None {
            assert forall|j: int| 0 <= j < contacts.len() - 1 implies contacts[j].node_id
                != node_id by {
                assert(rest[j].node_id != node_id);
            }
        } else {
            let i = position(rest, node_id)->0;
            assert(rest[i].node_id == node_id);
            assert forall|j: int| 0 <= j < i implies contacts[j].node_id != node_id by {
                assert(rest[j].node_id != node_id);
            }
        }
    }
}

/// A node is held just where some contact has its identifier.
pub proof fn lemma_holds(contacts: Seq<Contact>, i: int)
    requires
        0 <= i < contacts.len(),
    ensures
        holds(contacts, contacts[i].node_id),
{
    lemma_position(contacts, contacts[i].node_id);
}

/// Where contacts are distinct, the position of a contact's node is the contact's own.
pub proof fn lemma_position_unique(contacts: Seq<Contact>, i: int)
    requires
        distinct(contacts),
        0 <= i < contacts.len(),
    ensures
        position(contacts, contacts[i].node_id) == Some(i),
{
    lemma_position(contacts, contacts[i].node_id);
}

/// Without a node, distinct contacts stay distinct and no longer hold the node; every other
/// node stays.
pub proof fn lemma_without(contacts: Seq<Contact>, node_id: NodeId)
    requires
        distinct(contacts),
    ensures
        distinct(without(contacts, node_id)),
        !holds(without(contacts, node_id), node_id),
        without(contacts, node_id).len() == if holds(contacts, node_id) {
            contacts.len() - 1
        } else {
            contacts.len() as int
        },
        forall|j: int| 0 <= j < without(contacts, node_id).len() ==> contacts.contains(
            #[trigger] without(contacts, node_id)[j],
        ),
        forall|other: NodeId|
            other != node_id ==> (#[trigger] holds(without(contacts, node_id), other) <==> holds(
                contacts,
                other,
            )),
{
    lemma_position(contacts, node_id);
    let rest = without(contacts, node_id);
    match position(contacts, node_id) {
        None => {
            assert forall|j: int| 0 <= j < rest.len() implies contacts.contains(rest[j]) by {
                assert(contacts[j] == rest[j]);
            }
        },
        Some(i) => {
            assert forall|j: int| 0 <= j < rest.len() implies rest[j] == contacts[if j < i {
                j
            } else {
                j + 1
            }] by {}
            assert forall|j: int| 0 <= j < rest.len() implies contacts.contains(rest[j]) by {
                assert(contacts[if j < i {
                    j
                } else {
                    j + 1
                }] == rest[j]);
            }
            lemma_position(rest, node_id);
            assert forall|other: NodeId| other != node_id implies (#[trigger] holds(rest, other)
                <==> holds(contacts, other)) by {
                lemma_position(rest, other);
                lemma_position(contacts, other);
                if holds(contacts, other) {
                    let p = position(contacts, other)->0;
                    let q = if p < i {
                        p
                    } else {
                        p - 1
                    };
                    assert(rest[q].node_id == other);
                }
                if holds(rest, other) {
                    let q = position(rest, other)->0;
                    assert(contacts[if q < i {
                        q
                    } else {
                        q + 1
                    }].node_id == other);
                }
            }
        },
    }
}

/// Without a node, suspected contacts still stand before active ones; and so they do with an
/// active contact at the end, or a suspected one at the front.
pub proof fn lemma_suspects_first(contacts: Seq<Contact>, node_id: NodeId)
    requires
        suspects_first(contacts),
    ensures
        suspects_first(without(contacts, node_id)),
        forall|c: Contact|
            c.status == NodeStatus::Active ==> suspects_first(
                #[trigger] without(contacts, node_id).push(c),
            ),
        forall|c: Contact|
            c.status == NodeStatus::Suspected ==> suspects_first(
                #[trigger] (seq![c] + without(contacts, node_id)),
            ),
{
    lemma_position(contacts, node_id);
    let rest = without(contacts, node_id);
    if let Some(at) = position(contacts, node_id) {
        assert forall|j: int| 0 <= j < rest.len() implies rest[j] == contacts[if j < at {
            j
        } else {
            j + 1
        }] by {}
    }
}

/// A contact pushed at the end of distinct contacts that do not hold its node keeps them
/// distinct, and is the one node that is held besides.
pub proof fn lemma_pushed(contacts: Seq<Contact>, contact: Contact)
    requires
        distinct(contacts),
        !holds(contacts, contact.node_id),
    ensures
        distinct(contacts.push(contact)),
        position(contacts.push(contact), contact.node_id) == Some(contacts.len() as int),
        forall|other: NodeId|
            other != contact.node_id ==> #[trigger] position(contacts.push(contact), other)
                == position(contacts, other),
{
    lemma_position(contacts, contact.node_id);
    assert(contacts.push(contact).drop_last() =~= contacts);
}

/// The position of the first contact of a node.
pub fn find(contacts: &VecDeque<Contact>, node_id: &NodeId) -> (at: Option<usize>)
    ensures
        at is Some <==> position(contacts@, *node_id) is Some,
        at matches Some(i) ==> position(contacts@, *node_id) == Some(i as int) && i
            < contacts@.len(),
{
    let mut i: usize = 0;
    let len: usize = contacts.len();
    while i < len
        invariant
            i <= len,
            len == contacts@.len(),
            position(contacts@.take(i as int), *node_id) is None,
        decreases len - i,
    {
        assert(contacts@.take(i + 1).drop_last() =~= contacts@.take(i as int));
        if contacts[i].node_id == *node_id {
            proof {
                lemma_position(contacts@.take(i as int), *node_id);
                lemma_position(contacts@, *node_id);
                assert forall|j: int| 0 <= j < i implies contacts@[j].node_id != *node_id by {
                    assert(contacts@.take(i as int)[j] == contacts@[j]);
                }
            }
            return Some(i);
        }
        i = i + 1;
    }
    assert(contacts@.take(i as int) =~= contacts@);
    None
}

} // verus!
