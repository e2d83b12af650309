//! The nodes closest to a target.

use crate::dht::id;
use crate::dht::id::NodeId;
use vstd::prelude::*;

verus! {

/// `picked` are the `limit` nodes closest to a target, or all nodes where there are fewer,
/// nearest first.
pub open spec fn is_closest(
    picked: Seq<NodeId>,
    nodes: Seq<NodeId>,
    target: NodeId,
    limit: nat,
) -> bool {
    &&& picked.len() == if nodes.len() < limit {
        nodes.len()
    } else {
        limit
    }
    &&& forall|i: int, j: int|
        0 <= i < j < picked.len() ==> id::distance(picked[i], target) < id::distance(
            picked[j],
            target,
        )
    &&& forall|i: int| 0 <= i < picked.len() ==> nodes.contains(#[trigger] picked[i])
    &&& forall|node: NodeId, i: int|
        nodes.contains(node) && !picked.contains(node) && 0 <= i < picked.len() ==> id::distance(
            #[trigger] picked[i],
            target,
        ) < #[trigger] id::distance(node, target)
    &&& nodes.len() <= limit ==> forall|node: NodeId| #[trigger]
        nodes.contains(node) ==> picked.contains(node)
}

/// Adds a node to the picked ones where it is close enough.
pub(crate) fn pick(
    picked: &mut Vec<NodeId>,
    node: NodeId,
    target: &NodeId,
    limit: usize,
    Ghost(seen): Ghost<Seq<NodeId>>,
)
    requires
        limit > 0,
        is_closest(old(picked)@, seen, *target, limit as nat),
        !seen.contains(node),
    ensures
        is_closest(final(picked)@, seen.push(node), *target, limit as nat),
{
    let ghost before = picked@;
    let span = node.xor_distance(target);
    let mut at: usize = picked.len();
    while at > 0 && span.shorter_than(&picked[at - 1].xor_distance(target))
        invariant
            at <= picked@.len(),
            picked@ == before,
            span@ == id::xor_bytes(node@, target@),
            forall|i: int|
                at <= i < before.len() ==> id::distance(node, *target) < id::distance(
                    #[trigger] before[i],
                    *target,
                ),
        decreases at,
    {
        at = at - 1;
    }
    proof {
        assert forall|i: int| 0 <= i < at implies id::distance(#[trigger] before[i], *target)
            < id::distance(node, *target) by {
            if id::distance(before[i], *target) == id::distance(node, *target) {
                id::law_distance_is_injective(before[i], node, *target);
            }
            if at > 0 && id::distance(before[at - 1], *target) == id::distance(node, *target) {
                id::law_distance_is_injective(before[at - 1], node, *target);
            }
            assert(seen.contains(before[i]));
            assert(seen.contains(before[at - 1]));
        }
    }
    picked.insert(at, node);
    let ghost grown = picked@;
    if picked.len() > limit {
        picked.pop();
    }
    proof {
        let nodes = seen.push(node);
        let after = picked@;
        assert(grown == before.insert(at as int, node));
        assert(forall|i: int| 0 <= i < after.len() ==> after[i] == grown[i]);
        assert(forall|i: int| 0 <= i < before.len() ==> #[trigger] before[i] == grown[if i < at {
            i
        } else {
            i + 1
        }]);
        assert(forall|i: int|
            0 <= i < grown.len() ==> #[trigger] grown[i] == if i < at {
                before[i]
            } else if i == at {
                node
            } else {
                before[i - 1]
            });
        assert forall|i: int| 0 <= i < after.len() implies nodes.contains(#[trigger] after[i]) by {
            if i == at {
                assert(nodes[seen.len() as int] == node);
            } else {
                let old_i = if i < at {
                    i
                } else {
                    i - 1
                };
                assert(seen.contains(before[old_i]));
                let w = choose|w: int| 0 <= w < seen.len() && seen[w] == before[old_i];
                assert(nodes[w] == before[old_i]);
            }
        }
        assert forall|i: int, j: int| 0 <= i < j < grown.len() implies id::distance(
            grown[i],
            *target,
        ) < id::distance(grown[j], *target) by {}
        assert forall|other: NodeId, i: int|
            nodes.contains(other) && !after.contains(other) && 0 <= i < after.len() implies
            id::distance(#[trigger] after[i], *target) < #[trigger] id::distance(
            other,
            *target,
        ) by {
            let w = choose|w: int| 0 <= w < nodes.len() && nodes[w] == other;
            if grown.contains(other) {
                let g = choose|g: int| 0 <= g < grown.len() && grown[g] == other;
                if g < after.len() {
                    assert(after[g] == other);
                }
                assert(g == after.len());
                assert(grown[i] == after[i]);
            } else {
                if other == node {
                    assert(grown[at as int] == node);
                }
                assert(w < seen.len());
                assert(seen.contains(other));
                if before.contains(other) {
                    let p = choose|p: int| 0 <= p < before.len() && before[p] == other;
                    assert(grown.contains(grown[if p < at {
                        p
                    } else {
                        p + 1
                    }]));
                }
                if i == at {
                    // A node that was seen and not picked means that the limit was reached.
                    assert(seen.len() > limit);
                    assert(id::distance(before[at as int], *target) < id::distance(
                        other,
                        *target,
                    ));
                } else {
                    let old_i = if i < at {
                        i
                    } else {
                        i - 1
                    };
                    assert(id::distance(before[old_i], *target) < id::distance(other, *target));
                }
            }
        }
        if nodes.len() <= limit {
            assert forall|other: NodeId| #[trigger] nodes.contains(other) implies after.contains(
                other,
            ) by {
                let w = choose|w: int| 0 <= w < nodes.len() && nodes[w] == other;
                if w == seen.len() {
                    assert(after[at as int] == node);
                } else {
                    assert(seen.contains(seen[w]));
                    let p = choose|p: int| 0 <= p < before.len() && before[p] == other;
                    assert(after[if p < at {
                        p
                    } else {
                        p + 1
                    }] == other);
                }
            }
        }
    }
}

} // verus!
