//! Applying a log, entry by entry or all at once.
use vstd::prelude::*;

use super::protocol::Entries;
use super::refine;
use crate::model::NodeView;
use crate::runtime;
use crate::state_machine;
use crate::state_machine::StateMachine;
use crate::types::log::EntryView;
use crate::types::log::PayloadView;
use crate::types::primitives::LogIndex;
use crate::types::primitives::Term;

verus! {

/// The commands of a log, in order.
pub open spec fn commands_in<C>(entries: Entries<C>) -> Seq<C>
    decreases entries.len(),
{
    if entries.len() == 0 {
        Seq::empty()
    } else {
        let before = commands_in(entries.drop_last());
        match entries.last().payload {
            PayloadView::Command(command) => before.push(command),
            _ => before,
        }
    }
}

/// The commands of two logs, one behind the other.
pub proof fn lemma_commands_in_concat<C>(a: Entries<C>, b: Entries<C>)
    ensures
        commands_in(a + b) == commands_in(a) + commands_in(b),
    decreases b.len(),
{
    if b.len() == 0 {
        assert(a + b =~= a);
        assert(commands_in(a) + commands_in(b) =~= commands_in(a));
    } else {
        assert((a + b).drop_last() =~= a + b.drop_last());
        lemma_commands_in_concat(a, b.drop_last());
        assert(commands_in(a + b) =~= commands_in(a) + commands_in(b));
    }
}

proof fn lemma_commands_in_one<C>(entry: EntryView<C>)
    ensures
        commands_in(seq![entry]) == match entry.payload {
            PayloadView::Command(command) => seq![command],
            _ => Seq::empty(),
        },
{
    let one = seq![entry];
    assert(one.drop_last() =~= Seq::<EntryView<C>>::empty());
    assert(commands_in(one.drop_last()) =~= Seq::<C>::empty());
    assert(commands_in(one) =~= match entry.payload {
        PayloadView::Command(command) => seq![command],
        _ => Seq::empty(),
    });
}

/// The commands between two points of a log, split at a third.
proof fn lemma_commands_between<C>(full: Entries<C>, a: int, b: int, c: int)
    requires
        0 <= a <= b <= c <= full.len(),
    ensures
        commands_in(full.subrange(a, c)) == commands_in(full.subrange(a, b)) + commands_in(
            full.subrange(b, c),
        ),
{
    assert(full.subrange(a, c) =~= full.subrange(a, b) + full.subrange(b, c));
    lemma_commands_in_concat(full.subrange(a, b), full.subrange(b, c));
}

/// Applying two runs of commands is applying them one after the other.
pub proof fn lemma_state_after_concat<Cmd: View, S: StateMachine<Cmd>>(
    state: S::State,
    a: Seq<Cmd::V>,
    b: Seq<Cmd::V>,
)
    ensures
        state_machine::state_after::<Cmd, S>(state, a + b) == state_machine::state_after::<Cmd, S>(
            state_machine::state_after::<Cmd, S>(state, a),
            b,
        ),
    decreases b.len(),
{
    if b.len() == 0 {
        assert(a + b =~= a);
    } else {
        assert((a + b).drop_last() =~= a + b.drop_last());
        lemma_state_after_concat::<Cmd, S>(state, a, b.drop_last());
    }
}

/// The next entry to apply is the next command of the log.
proof fn lemma_next_entry<C>(node: NodeView<C>, full: Entries<C>)
    requires
        refine::is_tail(node.log(), full),
        node.log().boundary <= node.applied.value <= node.commit.value <= full.len(),
    ensures
        ({
            let (after, taken) = node.take_entry_to_apply();
            let passed = full.subrange(node.applied.value as int, after.applied.value as int);
            &&& after == (NodeView {
                applied: after.applied,
                committed_configs: after.committed_configs,
                ..node
            })
            &&& node.applied.value <= after.applied.value <= node.commit.value
            &&& match taken {
                Some(entry) => {
                    &&& commands_in(passed) == seq![entry.command]
                    &&& after.applied.value > node.applied.value
                },
                None => {
                    &&& after.applied == node.commit
                    &&& commands_in(passed) == Seq::<C>::empty()
                },
            }
        }),
    decreases node.commit.value - node.applied.value,
{
    let start = node.applied.value as int;
    if start >= node.commit.value {
        assert(full.subrange(start, start) =~= Seq::<EntryView<C>>::empty());
    } else {
        refine::lemma_tail(node.log(), full);
        let index = LogIndex { value: (node.applied.value + 1) as u64 };
        let entry = node.log().at(index.value as int);
        assert(node.log().retains(index.value as int));
        assert(entry == full[start]);
        assert(full.subrange(start, start + 1) =~= seq![entry]);
        lemma_commands_in_one(entry);
        let (after, taken) = node.take_entry_to_apply();
        match entry.payload {
            PayloadView::Command(_) => {},
            PayloadView::NoOp => {
                let next = NodeView { applied: index, ..node };
                lemma_next_entry(next, full);
                lemma_commands_between(full, start, start + 1, after.applied.value as int);
                let rest = full.subrange(start + 1, after.applied.value as int);
                assert(Seq::<C>::empty() + commands_in(rest) =~= commands_in(rest));
            },
            PayloadView::ConfigChange(config) => {
                let term = Term { value: entry.term as u64 };
                let next = NodeView {
                    applied: index,
                    committed_configs: node.committed_configs.push((term, index, config)),
                    ..node
                };
                lemma_next_entry(next, full);
                lemma_commands_between(full, start, start + 1, after.applied.value as int);
                let rest = full.subrange(start + 1, after.applied.value as int);
                assert(Seq::<C>::empty() + commands_in(rest) =~= commands_in(rest));
            },
        }
    }
}

/// Taking all entries takes the commands through the commit index.
proof fn lemma_take_all<C>(node: NodeView<C>, full: Entries<C>)
    requires
        refine::is_tail(node.log(), full),
        node.log().boundary <= node.applied.value <= node.commit.value <= full.len(),
    ensures
        ({
            let (after, taken) = runtime::take_all(node);
            &&& after == (NodeView {
                applied: node.commit,
                committed_configs: after.committed_configs,
                ..node
            })
            &&& runtime::commands_of(taken) == commands_in(
                full.subrange(node.applied.value as int, node.commit.value as int),
            )
        }),
    decreases node.commit.value - node.applied.value,
{
    lemma_next_entry(node, full);
    let (next, entry) = node.take_entry_to_apply();
    let (after, taken) = runtime::take_all(node);
    match entry {
        None => {
            assert(runtime::commands_of(taken) =~= Seq::<C>::empty());
        },
        Some(e) => {
            lemma_take_all(next, full);
            let rest = runtime::take_all(next).1;
            lemma_commands_between(
                full,
                node.applied.value as int,
                next.applied.value as int,
                node.commit.value as int,
            );
            assert(runtime::commands_of(taken) =~= seq![e.command] + runtime::commands_of(rest));
        },
    }
}

/// A state machine that holds what applying the log through the applied index gives holds, once
/// everything is applied, what applying it through the commit index gives.
pub proof fn lemma_apply_all<Cmd: View, S: StateMachine<Cmd>>(
    initial: S::State,
    node: NodeView<Cmd::V>,
    full: Entries<Cmd::V>,
)
    requires
        refine::is_tail(node.log(), full),
        node.log().boundary <= node.applied.value <= node.commit.value <= full.len(),
    ensures
        ({
            let (after, taken) = runtime::take_all(node);
            let state = state_machine::state_after::<Cmd, S>(
                initial,
                commands_in(full.take(node.applied.value as int)),
            );
            &&& after == (NodeView {
                applied: node.commit,
                committed_configs: after.committed_configs,
                ..node
            })
            &&& state_machine::state_after::<Cmd, S>(state, runtime::commands_of(taken))
                == state_machine::state_after::<Cmd, S>(
                initial,
                commands_in(full.take(node.commit.value as int)),
            )
        }),
{
    let a = node.applied.value as int;
    let c = node.commit.value as int;
    lemma_take_all(node, full);
    lemma_commands_between(full, 0, a, c);
    assert(full.subrange(0, a) =~= full.take(a));
    assert(full.subrange(0, c) =~= full.take(c));
    lemma_state_after_concat::<Cmd, S>(
        initial,
        commands_in(full.take(a)),
        commands_in(full.subrange(a, c)),
    );
}

} // verus!
