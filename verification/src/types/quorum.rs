//! Majorities of a membership, and why they overlap.
use vstd::prelude::*;

use super::primitives::NodeId;

verus! {

/// The number of servers that make up a strict majority of `size`.
pub open spec fn majority_of(size: nat) -> nat {
    size / 2 + 1
}

/// Whether `quorum` is a strict majority of `members`.
pub open spec fn is_quorum(quorum: Set<NodeId>, members: Set<NodeId>) -> bool {
    &&& quorum.subset_of(members)
    &&& quorum.len() >= majority_of(members.len())
}

/// Two subsets of a set that together outnumber it share an element.
pub proof fn lemma_overlap(a: Set<NodeId>, b: Set<NodeId>, universe: Set<NodeId>)
    requires
        universe.finite(),
        a.subset_of(universe),
        b.subset_of(universe),
        a.len() + b.len() > universe.len(),
    ensures
        exists|id: NodeId| #[trigger] a.contains(id) && b.contains(id),
{
    vstd::set_lib::lemma_set_intersect_union_lens(a, b);
    assert(a.union(b).subset_of(universe));
    vstd::set_lib::lemma_len_subset(a, universe);
    vstd::set_lib::lemma_len_subset(b, universe);
    vstd::set_lib::lemma_len_subset(a.union(b), universe);
    let both = a.intersect(b);
    assert(both.len() > 0);
    assert(both.finite());
    let id = both.choose();
    assert(both.contains(id));
    assert(a.contains(id) && b.contains(id));
}

/// Any two majorities of one membership share a member, so two leaders of one term cannot both
/// have been elected, and a new leader always hears from somebody who stores what is committed.
pub proof fn law_majorities_intersect(a: Set<NodeId>, b: Set<NodeId>, members: Set<NodeId>)
    requires
        members.finite(),
        is_quorum(a, members),
        is_quorum(b, members),
    ensures
        exists|id: NodeId| #[trigger] a.contains(id) && b.contains(id),
{
    lemma_overlap(a, b, members);
}

/// Any majority of a membership intersects any majority of a membership that differs from it by
/// one server, which is why a single-server change may take effect as soon as it is appended.
pub proof fn law_adjacent_majorities_intersect(
    a: Set<NodeId>,
    b: Set<NodeId>,
    smaller: Set<NodeId>,
    added: NodeId,
)
    requires
        smaller.finite(),
        is_quorum(a, smaller),
        is_quorum(b, smaller.insert(added)),
    ensures
        exists|id: NodeId| #[trigger] a.contains(id) && b.contains(id),
{
    lemma_overlap(a, b, smaller.insert(added));
}

} // verus!
