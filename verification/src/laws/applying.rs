//! Applying: every committed command reaches the state machine, once and in order.
use vstd::prelude::*;

use crate::model::AppliedView;
use crate::model::NodeView;
use crate::runtime;
use crate::types::log::EntryView;
use crate::types::log::PayloadView;
use crate::types::primitives::LogIndex;
use crate::types::primitives::Term;

verus! {

/// The entry at an index that the log of a node holds.
pub open spec fn entry_at<C>(node: NodeView<C>, index: int) -> EntryView<C> {
    node.persistent.log.entries[index - node.persistent.log.boundary - 1]
}

/// Whether the log of a node holds every entry from the first that is not applied to the last that is
/// committed, and their terms fit.
pub open spec fn can_apply<C>(node: NodeView<C>) -> bool {
    let log = node.persistent.log;
    &&& log.boundary <= node.applied.value
    &&& node.commit.value <= log.boundary + log.entries.len()
    &&& forall|k: int| 0 <= k < log.entries.len() ==> (#[trigger] log.entries[k]).term <= u64::MAX
}

/// What is taken next is the first committed command above what has been applied. Entries without a
/// command are passed over, those that change the membership being noted, in order. Where no command is
/// left, everything committed counts as applied.
pub proof fn law_next_command_is_taken<C>(node: NodeView<C>)
    requires
        can_apply(node),
    ensures
        ({
            let (after, taken) = node.take_entry_to_apply();
            &&& after == (NodeView {
                applied: after.applied,
                committed_configs: after.committed_configs,
                ..node
            })
            &&& node.applied.value <= after.applied.value
            &&& taken is None ==> after.applied.value == if node.commit.value > node.applied.value {
                node.commit.value
            } else {
                node.applied.value
            }
            &&& taken matches Some(entry) ==> {
                &&& entry.index == after.applied
                &&& node.applied.value < entry.index.value <= node.commit.value
                &&& entry_at(node, entry.index.value as int).payload == PayloadView::Command(
                    entry.command,
                )
                &&& entry_at(node, entry.index.value as int).term == entry.term.value
            }
            &&& forall|index: int|
                node.applied.value < index <= after.applied.value && (taken is None || index
                    < after.applied.value) ==> !((#[trigger] entry_at(
                    node,
                    index,
                )).payload is Command)
            &&& notes(node, after)
        }),
    decreases node.commit.value - node.applied.value,
{
    let log = node.persistent.log;
    if node.applied.value < node.commit.value {
        let index = LogIndex { value: (node.applied.value + 1) as u64 };
        let next = NodeView { applied: index, ..node };
        let entry = entry_at(node, index.value as int);
        assert(entry == log.entries[index.value - log.boundary - 1]);
        match entry.payload {
            PayloadView::NoOp => {
                law_next_command_is_taken(next);
                let after = next.take_entry_to_apply().0;
                assert(notes(next, after));
                let taken = next.take_entry_to_apply().1;
                assert forall|i: int|
                    node.applied.value < i <= after.applied.value && (taken is None || i
                        < after.applied.value) implies !((#[trigger] entry_at(
                    node,
                    i,
                )).payload is Command) by {
                    assert(entry_at(next, i) == entry_at(node, i));
                }
                assert forall|i: int| node.applied.value < i <= after.applied.value && (
                #[trigger] entry_at(node, i)).payload is ConfigChange implies noted_in(
                    node,
                    after,
                    i,
                ) by {
                    assert(entry_at(next, i) == entry_at(node, i));
                    assert(noted_in(next, after, i));
                }
                assert forall|j: int|
                    node.committed_configs.len() <= j < after.committed_configs.len() implies {
                    let (term, at, members) = #[trigger] after.committed_configs[j];
                    &&& node.applied.value < at.value <= after.applied.value
                    &&& entry_at(node, at.value as int).term == term.value
                    &&& entry_at(node, at.value as int).payload == PayloadView::<C>::ConfigChange(
                        members,
                    )
                } by {
                    let at = after.committed_configs[j].1;
                    assert(entry_at(next, at.value as int) == entry_at(node, at.value as int));
                }
            },
            PayloadView::ConfigChange(config) => {
                let noted = NodeView {
                    committed_configs: node.committed_configs.push(
                        (Term { value: entry.term as u64 }, index, config),
                    ),
                    ..next
                };
                law_next_command_is_taken(noted);
                let after = noted.take_entry_to_apply().0;
                assert(notes(noted, after));
                let taken = noted.take_entry_to_apply().1;
                assert forall|i: int|
                    node.applied.value < i <= after.applied.value && (taken is None || i
                        < after.applied.value) implies !((#[trigger] entry_at(
                    node,
                    i,
                )).payload is Command) by {
                    assert(entry_at(noted, i) == entry_at(node, i));
                }
                let n = node.committed_configs.len() as int;
                assert(noted.committed_configs[n] == (
                    Term { value: entry.term as u64 },
                    index,
                    config,
                ));
                assert(after.committed_configs.take(n + 1)[n] == noted.committed_configs[n]);
                assert(after.committed_configs.take(n) =~= node.committed_configs) by {
                    assert forall|j: int| 0 <= j < n implies after.committed_configs[j]
                        == node.committed_configs[j] by {
                        assert(after.committed_configs.take(n + 1)[j]
                            == noted.committed_configs[j]);
                    }
                }
                assert forall|i: int| node.applied.value < i <= after.applied.value && (
                #[trigger] entry_at(node, i)).payload is ConfigChange implies noted_in(
                    node,
                    after,
                    i,
                ) by {
                    assert(entry_at(noted, i) == entry_at(node, i));
                    if i == index.value {
                        assert(after.committed_configs[n].1.value == i);
                    } else {
                        assert(noted_in(noted, after, i));
                    }
                }
                assert forall|j: int|
                    node.committed_configs.len() <= j < after.committed_configs.len() implies {
                    let (term, at, members) = #[trigger] after.committed_configs[j];
                    &&& node.applied.value < at.value <= after.applied.value
                    &&& entry_at(node, at.value as int).term == term.value
                    &&& entry_at(node, at.value as int).payload == PayloadView::<C>::ConfigChange(
                        members,
                    )
                } by {
                    let at = after.committed_configs[j].1;
                    assert(entry_at(noted, at.value as int) == entry_at(node, at.value as int));
                }
            },
            PayloadView::Command(_) => {
                assert(node.take_entry_to_apply().0.committed_configs.take(
                    node.committed_configs.len() as int,
                ) =~= node.committed_configs);
            },
        }
    } else {
        assert(node.committed_configs.take(node.committed_configs.len() as int)
            =~= node.committed_configs);
    }
}

/// Whether `after` notes that a membership change at `index` has committed.
pub open spec fn noted_in<C>(before: NodeView<C>, after: NodeView<C>, index: int) -> bool {
    exists|j: int|
        before.committed_configs.len() <= j < after.committed_configs.len() && (
        #[trigger] after.committed_configs[j]).1.value == index
}

/// Whether `after` notes, behind what `before` had noted, exactly the membership changes that lie
/// between what had been applied before and what has been since, in order.
pub open spec fn notes<C>(before: NodeView<C>, after: NodeView<C>) -> bool {
    let n = before.committed_configs.len() as int;
    &&& after.committed_configs.len() >= n
    &&& after.committed_configs.take(n) == before.committed_configs
    &&& forall|index: int|
        before.applied.value < index <= after.applied.value && (#[trigger] entry_at(
            before,
            index,
        )).payload is ConfigChange ==> noted_in(before, after, index)
    &&& forall|j: int|
        n <= j < after.committed_configs.len() ==> {
            let (term, index, members) = #[trigger] after.committed_configs[j];
            &&& before.applied.value < index.value <= after.applied.value
            &&& entry_at(before, index.value as int).term == term.value
            &&& entry_at(before, index.value as int).payload == PayloadView::<C>::ConfigChange(
                members,
            )
        }
    &&& forall|i: int, j: int|
        n <= i < j < after.committed_configs.len() ==> (#[trigger] after.committed_configs[i]).1.value
            < (#[trigger] after.committed_configs[j]).1.value
}

/// Whether one of `taken` is the entry at `index`.
pub open spec fn is_among<C>(taken: Seq<AppliedView<C>>, index: int) -> bool {
    exists|j: int| 0 <= j < taken.len() && (#[trigger] taken[j]).index.value == index
}

/// A runtime that applies what is ready applies every committed command that was not applied yet, each
/// once, in the order of the log, and nothing else.
pub proof fn law_every_committed_command_is_applied_once_in_order<C>(node: NodeView<C>)
    requires
        can_apply(node),
        node.applied.value <= node.commit.value,
    ensures
        ({
            let (end, taken) = runtime::take_all(node);
            &&& end.applied == node.commit
            &&& end == (NodeView {
                applied: end.applied,
                committed_configs: end.committed_configs,
                ..node
            })
            &&& forall|index: int|
                node.applied.value < index <= node.commit.value && (#[trigger] entry_at(
                    node,
                    index,
                )).payload is Command ==> is_among(taken, index)
            &&& forall|j: int|
                0 <= j < taken.len() ==> {
                    let entry = #[trigger] taken[j];
                    &&& node.applied.value < entry.index.value <= node.commit.value
                    &&& entry_at(node, entry.index.value as int).payload == PayloadView::Command(
                        entry.command,
                    )
                    &&& entry_at(node, entry.index.value as int).term == entry.term.value
                }
            &&& forall|i: int, j: int|
                0 <= i < j < taken.len() ==> (#[trigger] taken[i]).index.value < (
                #[trigger] taken[j]).index.value
        }),
    decreases node.commit.value - node.applied.value,
{
    law_next_command_is_taken(node);
    let (after, first) = node.take_entry_to_apply();
    if let Some(entry) = first {
        law_every_committed_command_is_applied_once_in_order(after);
        let rest = runtime::take_all(after).1;
        let taken = runtime::take_all(node).1;
        assert(taken == seq![entry] + rest);
        assert(taken[0] == entry);
        assert forall|index: int|
            node.applied.value < index <= node.commit.value && (#[trigger] entry_at(
                node,
                index,
            )).payload is Command implies is_among(taken, index) by {
            assert(entry_at(after, index) == entry_at(node, index));
            if index > after.applied.value {
                assert(is_among(rest, index));
                let j = choose|j: int|
                    0 <= j < rest.len() && (#[trigger] rest[j]).index.value == index;
                assert(taken[j + 1] == rest[j]);
            }
        }
        assert forall|j: int| 0 <= j < taken.len() implies {
            let entry = #[trigger] taken[j];
            &&& node.applied.value < entry.index.value <= node.commit.value
            &&& entry_at(node, entry.index.value as int).payload == PayloadView::Command(
                entry.command,
            )
            &&& entry_at(node, entry.index.value as int).term == entry.term.value
        } by {
            if j > 0 {
                assert(taken[j] == rest[j - 1]);
                assert(entry_at(after, taken[j].index.value as int) == entry_at(
                    node,
                    taken[j].index.value as int,
                ));
            }
        }
        assert forall|i: int, j: int| 0 <= i < j < taken.len() implies (
        #[trigger] taken[i]).index.value < (#[trigger] taken[j]).index.value by {
            assert(taken[j] == rest[j - 1]);
            if i > 0 {
                assert(taken[i] == rest[i - 1]);
            }
        }
    }
}

} // verus!
