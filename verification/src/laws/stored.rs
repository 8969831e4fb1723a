//! What storage and the log hold after each change, index by index.
use vstd::prelude::*;

use crate::persistent::PersistentView;
use crate::storage::StoredView;
use crate::types::log::EntryView;
use crate::types::log::LogView;
use crate::types::log::SuffixDisposition;
use crate::types::primitives::LogIndex;
use crate::types::primitives::NodeId;
use crate::types::primitives::Term;
use crate::types::snapshot::SnapshotView;

verus! {

/// Whether `after` holds the entries of `before` that lie above its boundary and, where `through` says
/// so, not beyond an index, each at the index it had.
pub open spec fn keeps<C>(before: LogView<C>, after: LogView<C>, through: int) -> bool {
    let last = before.boundary + before.entries.len();
    &&& after.boundary + after.entries.len() == if through < last {
        through
    } else {
        last as int
    }
    &&& forall|k: int|
        0 <= k < after.entries.len() ==> #[trigger] after.entries[k] == before.entries[after.boundary
            + k - before.boundary]
}

/// A truncation drops exactly the entries from an index on, if the log has one there.
pub proof fn law_truncation_drops_the_tail<C>(log: LogView<C>, index: nat)
    ensures
        ({
            let after = log.truncate_from(index as int);
            &&& after.boundary == log.boundary
            &&& after.boundary_term == log.boundary_term
            &&& index > log.boundary ==> keeps(log, after, index - 1)
            &&& index <= log.boundary ==> after == log
        }),
{
}

/// A compaction drops exactly the entries through an index, and remembers the term given for it. It
/// never goes back, and where the log does not reach so far nothing is left.
pub proof fn law_compaction_drops_the_head<C>(log: LogView<C>, index: nat, term: nat)
    ensures
        ({
            let after = log.compact_through(index, term);
            &&& index <= log.boundary ==> after == log
            &&& index > log.boundary ==> {
                &&& after.boundary == index
                &&& after.boundary_term == term
                &&& index <= log.boundary + log.entries.len() ==> keeps(
                    log,
                    after,
                    (log.boundary + log.entries.len()) as int,
                )
                &&& index > log.boundary + log.entries.len() ==> after.entries.len() == 0
            }
        }),
{
}

/// What a log holds from an index on, and what it holds through an index, are its entries at those
/// indexes and no others, and together they are all of it.
pub proof fn law_parts_make_up_the_log<C>(log: LogView<C>, index: nat)
    ensures
        ({
            let last = log.boundary + log.entries.len();
            let head = log.through(index as int);
            let tail = log.suffix_from(index + 1int);
            &&& head + tail == log.entries
            &&& head.len() == if index <= log.boundary {
                0
            } else if index >= last {
                log.entries.len() as int
            } else {
                index - log.boundary
            }
            &&& log.suffix_from(0) == log.entries
        }),
{
    let head = log.through(index as int);
    let tail = log.suffix_from(index + 1int);
    assert(head + tail =~= log.entries);
}

/// Every index is retained, compacted away, or not reached yet, and a log knows the terms of those it
/// retains and of its boundary.
pub proof fn law_indexes_of_a_log<C>(log: LogView<C>, index: nat, term: nat)
    ensures
        log.retains(index as int) <==> log.boundary < index <= log.boundary + log.entries.len(),
        log.knows(index as int) <==> index == log.boundary || log.retains(index as int),
        log.retains(index as int) ==> {
            &&& log.at(index as int) == log.entries[index - log.boundary - 1]
            &&& log.term_of(index as int) == log.entries[index - log.boundary - 1].term
        },
        log.term_of(log.boundary as int) == log.boundary_term,
        log.last_index() == log.boundary + log.entries.len(),
        log.last_term() == log.term_of(log.last_index() as int),
        log.matches(index as int, term) <==> index < log.boundary || (log.knows(index as int)
            && log.term_of(index as int) == term),
{
}

/// An entry that is appended is the last, and the ones before it stay.
pub proof fn law_append_adds_behind<C>(log: LogView<C>, entries: Seq<EntryView<C>>, entry: EntryView<C>)
    ensures
        log.push(entry).entries == log.entries + seq![entry],
        log.push(entry).boundary == log.boundary,
        log.push(entry).boundary_term == log.boundary_term,
        log.extend(entries).entries == log.entries + entries,
        log.extend(entries).boundary == log.boundary,
        log.extend(entries).boundary_term == log.boundary_term,
{
    assert(log.push(entry).entries =~= log.entries + seq![entry]);
}

/// Each write to storage changes what it is for, and nothing else: the term and the vote, the tail of
/// the log, or the snapshot and what it covers. A snapshot that discards the log leaves no entry, and
/// one that retains it leaves those above its boundary.
pub proof fn law_writes_change_what_they_are_for<C>(
    stored: StoredView<C>,
    term: Term,
    voted_for: Option<NodeId>,
    index: LogIndex,
    entries: Seq<EntryView<C>>,
    snapshot: SnapshotView,
)
    ensures
        ({
            let after = stored.set_meta(term, voted_for);
            &&& after.term == term
            &&& after.voted_for == voted_for
            &&& after.snapshot == stored.snapshot
            &&& after.log == stored.log
        }),
        ({
            let after = stored.truncate_from(index);
            &&& after.term == stored.term
            &&& after.voted_for == stored.voted_for
            &&& after.snapshot == stored.snapshot
            &&& after.log.boundary == stored.log.boundary
            &&& after.log.boundary_term == stored.log.boundary_term
            &&& index.value > stored.log.boundary ==> keeps(
                stored.log,
                after.log,
                index.value - 1,
            )
            &&& index.value <= stored.log.boundary ==> after.log == stored.log
        }),
        ({
            let after = stored.append(entries);
            &&& after.term == stored.term
            &&& after.voted_for == stored.voted_for
            &&& after.snapshot == stored.snapshot
            &&& after.log.boundary == stored.log.boundary
            &&& after.log.boundary_term == stored.log.boundary_term
            &&& after.log.entries == stored.log.entries + entries
        }),
        ({
            let after = stored.install_snapshot(snapshot, SuffixDisposition::Discard);
            &&& after.term == stored.term
            &&& after.voted_for == stored.voted_for
            &&& after.snapshot == Some(snapshot)
            &&& after.log.boundary == snapshot.last_index
            &&& after.log.boundary_term == snapshot.last_term
            &&& after.log.entries.len() == 0
        }),
        ({
            let after = stored.install_snapshot(snapshot, SuffixDisposition::Retain);
            &&& after.term == stored.term
            &&& after.voted_for == stored.voted_for
            &&& after.snapshot == Some(snapshot)
            &&& snapshot.last_index > stored.log.boundary ==> {
                &&& after.log.boundary == snapshot.last_index
                &&& after.log.boundary_term == snapshot.last_term
                &&& snapshot.last_index <= stored.log.boundary + stored.log.entries.len() ==> keeps(
                    stored.log,
                    after.log,
                    (stored.log.boundary + stored.log.entries.len()) as int,
                )
                &&& snapshot.last_index > stored.log.boundary + stored.log.entries.len()
                    ==> after.log.entries.len() == 0
            }
            &&& snapshot.last_index <= stored.log.boundary ==> after.log == stored.log
        }),
{
    law_truncation_drops_the_tail(stored.log, index.value as nat);
    law_compaction_drops_the_head(stored.log, snapshot.last_index, snapshot.last_term);
}

/// Nothing is held by storage that was never written to, and a node that finds that starts in term 0
/// with no vote and an empty log.
pub proof fn law_empty_storage_is_a_fresh_start<C>()
    ensures
        ({
            let stored = StoredView::<C>::empty();
            &&& stored.term.value == 0
            &&& stored.voted_for is None
            &&& stored.snapshot is None
            &&& stored.log.boundary == 0
            &&& stored.log.boundary_term == 0
            &&& stored.log.entries.len() == 0
            &&& PersistentView::restored(stored) == PersistentView::<C>::fresh()
        }),
        ({
            let state = PersistentView::<C>::fresh();
            &&& state.term.value == 0
            &&& state.voted_for is None
            &&& state.latest_snapshot is None
            &&& state.log.boundary == 0
            &&& state.log.entries.len() == 0
        }),
{
}

/// A change of the state that a node must not forget changes that and nothing else of it, and is on
/// record for storage unless storage has it already.
pub proof fn law_changes_are_recorded<C>(
    state: PersistentView<C>,
    term: Term,
    candidate: Option<NodeId>,
    entry: EntryView<C>,
)
    ensures
        ({
            let after = state.set_term(term);
            &&& after == (PersistentView { term, meta_dirty: after.meta_dirty, ..state })
            &&& after.meta_dirty <==> state.meta_dirty || term != state.term
        }),
        ({
            let after = state.set_voted_for(candidate);
            &&& after == (PersistentView {
                voted_for: candidate,
                meta_dirty: after.meta_dirty,
                ..state
            })
            &&& after.meta_dirty <==> state.meta_dirty || candidate != state.voted_for
        }),
        ({
            let after = state.append_entry(entry);
            &&& after.log.entries == state.log.entries.push(entry)
            &&& after.pending_append == state.pending_append.push(entry)
            &&& after == (PersistentView {
                log: LogView { entries: after.log.entries, ..state.log },
                pending_append: after.pending_append,
                ..state
            })
        }),
{
}

/// What is left on record of a state once some of the kinds of record have been written: the others, in
/// the order metadata, snapshot, truncation, entries. The state itself stays.
pub proof fn law_written_records_are_cleared<C>(state: PersistentView<C>, steps: nat)
    ensures
        ({
            let after = state.cleared(steps);
            &&& after.term == state.term
            &&& after.voted_for == state.voted_for
            &&& after.log == state.log
            &&& after.latest_snapshot == state.latest_snapshot
            &&& after.meta_dirty <==> state.meta_dirty && steps < 1
            &&& after.pending_install == if steps < 2 {
                state.pending_install
            } else {
                None
            }
            &&& after.truncated_from == if steps < 3 {
                state.truncated_from
            } else {
                None
            }
            &&& after.pending_append == if steps < 4 {
                state.pending_append
            } else {
                Seq::empty()
            }
        }),
{
}

} // verus!
