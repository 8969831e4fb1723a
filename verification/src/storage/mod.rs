//! Durable storage.
pub mod file;
pub mod lines;
pub mod memory;

use vstd::prelude::*;

use crate::types::log;
use crate::types::log::EntryView;
use crate::types::log::LogEntry;
use crate::types::log::LogView;
use crate::types::log::SuffixDisposition;
use crate::types::primitives::LogIndex;
use crate::types::primitives::NodeId;
use crate::types::primitives::Term;
use crate::types::snapshot::Snapshot;
use crate::types::snapshot::SnapshotView;

verus! {

/// The complete persisted state, as read back at startup.
pub struct LoadedState<Cmd> {
    /// Highest term this node has seen. Zero on a fresh node.
    pub current_term: Term,
    /// Candidate this node voted for in `current_term`, if any.
    pub voted_for: Option<NodeId>,
    /// Most recent snapshot, if one was ever installed.
    pub snapshot: Option<Snapshot>,
    /// Entries after the snapshot boundary, or from index 1 if there is no snapshot.
    pub entries: Vec<LogEntry<Cmd>>,
}

/// What durable storage holds.
#[verifier::ext_equal]
pub struct StoredView<C> {
    pub term: Term,
    pub voted_for: Option<NodeId>,
    pub snapshot: Option<SnapshotView>,
    pub log: LogView<C>,
}

/// What storage for commands of type `Cmd` holds.
pub type StoredOf<Cmd> = StoredView<<Cmd as View>::V>;

/// A write that storage is asked for, with its arguments.
#[verifier::ext_equal]
pub enum StorageCall<C> {
    SetMeta { term: Term, voted_for: Option<NodeId> },
    InstallSnapshot { snapshot: SnapshotView, disposition: SuffixDisposition },
    TruncateFrom { index: LogIndex },
    Append { entries: Seq<EntryView<C>> },
}

/// A write that storage for commands of type `Cmd` is asked for.
pub type StorageCallOf<Cmd> = StorageCall<<Cmd as View>::V>;

/// The log that consists of a snapshot's boundary, or none, and the entries after it.
pub open spec fn log_after<C>(snapshot: Option<SnapshotView>, entries: Seq<EntryView<C>>) -> LogView<
    C,
> {
    match snapshot {
        Some(s) => LogView { boundary: s.last_index, boundary_term: s.last_term, entries },
        None => LogView { boundary: 0, boundary_term: 0, entries },
    }
}

/// What an optional snapshot stands for.
pub open spec fn snapshot_view(snapshot: Option<Snapshot>) -> Option<SnapshotView> {
    match snapshot {
        Some(s) => Some(s@),
        None => None,
    }
}

impl<C> StoredView<C> {
    /// Storage nothing was ever written to.
    pub open spec fn empty() -> Self {
        StoredView {
            term: Term { value: 0 },
            voted_for: None,
            snapshot: None,
            log: LogView::empty(),
        }
    }

    /// The log starts where the snapshot ends.
    pub open spec fn consistent(self) -> bool {
        self.log == log_after(self.snapshot, self.log.entries)
    }

    pub open spec fn set_meta(self, term: Term, voted_for: Option<NodeId>) -> Self {
        StoredView { term, voted_for, ..self }
    }

    pub open spec fn truncate_from(self, index: LogIndex) -> Self {
        StoredView { log: self.log.truncate_from(index.value as int), ..self }
    }

    pub open spec fn append(self, entries: Seq<EntryView<C>>) -> Self {
        StoredView { log: self.log.extend(entries), ..self }
    }

    pub open spec fn install_snapshot(
        self,
        snapshot: SnapshotView,
        disposition: SuffixDisposition,
    ) -> Self {
        StoredView {
            snapshot: Some(snapshot),
            log: self.log.install(snapshot.last_index, snapshot.last_term, disposition),
            ..self
        }
    }

    /// Storage after a write that succeeded.
    pub open spec fn after_call(self, call: StorageCall<C>) -> Self {
        match call {
            StorageCall::SetMeta { term, voted_for } => self.set_meta(term, voted_for),
            StorageCall::InstallSnapshot { snapshot, disposition } => self.install_snapshot(
                snapshot,
                disposition,
            ),
            StorageCall::TruncateFrom { index } => self.truncate_from(index),
            StorageCall::Append { entries } => self.append(entries),
        }
    }

    /// Storage after a run of writes that all succeeded.
    pub open spec fn after_calls(self, calls: Seq<StorageCall<C>>) -> Self
        decreases calls.len(),
    {
        if calls.len() == 0 {
            self
        } else {
            self.after_calls(calls.drop_last()).after_call(calls.last())
        }
    }
}

impl<Cmd: View> LoadedState<Cmd> {
    /// Whether this is what `stored` holds.
    pub open spec fn reads(self, stored: StoredView<Cmd::V>) -> bool {
        &&& self.current_term == stored.term
        &&& self.voted_for == stored.voted_for
        &&& snapshot_view(self.snapshot) == stored.snapshot
        &&& log::entry_views(self.entries@) == stored.log.entries
    }
}

/// Durable sink for the state Raft requires to survive a restart: `currentTerm`, `votedFor`, and
/// the log (section 5.1).
///
/// Implementations are deliberately passive. `Node` owns the in-memory log and states exactly what
/// changed through `truncate_from`, `append`, and `install_snapshot`. Storage never re-derives a
/// diff by comparing lengths or terms, because a length-only comparison misses a conflict
/// overwrite that replaces entries without changing the log length.
///
/// Nothing is promised of what is stored after a method has failed.
pub trait Storage<Cmd: Clone + View>: Sized {
    type Error;

    /// What this storage holds.
    spec fn stored(&self) -> StoredOf<Cmd>;

    /// Whether this storage may answer a write with `result` and become `after` by it.
    spec fn may_answer(
        &self,
        call: StorageCallOf<Cmd>,
        result: Result<(), Self::Error>,
        after: Self,
    ) -> bool;

    /// Reads the full persisted state. Called once, before the node starts.
    fn load(&self) -> (result: Result<LoadedState<Cmd>, Self::Error>)
        ensures
            log::clone_keeps_view::<Cmd>() ==> (result matches Ok(state) ==> state.reads(
                self.stored(),
            )),
    ;

    /// Records the term and vote. Must be durable before returning (section 5.1): a node that
    /// acknowledges a vote and then forgets it can elect two leaders in one term.
    fn set_meta(&mut self, term: Term, voted_for: Option<NodeId>) -> (result: Result<
        (),
        Self::Error,
    >)
        ensures
            result is Ok ==> final(self).stored() == old(self).stored().set_meta(term, voted_for),
            old(self).may_answer(
                StorageCall::SetMeta { term, voted_for },
                result,
                *final(self),
            ),
    ;

    /// Removes every entry at or after `index`. Inclusive of `index` itself. No-op when `index` is
    /// past the end of the log.
    fn truncate_from(&mut self, index: LogIndex) -> (result: Result<(), Self::Error>)
        ensures
            result is Ok ==> final(self).stored() == old(self).stored().truncate_from(index),
            old(self).may_answer(StorageCall::TruncateFrom { index }, result, *final(self)),
    ;

    /// Appends `entries` to the tail.
    ///
    /// The caller guarantees `entries` is exactly the suffix following what is already durable. No
    /// conflict detection happens here.
    fn append(&mut self, entries: &[LogEntry<Cmd>]) -> (result: Result<(), Self::Error>)
        ensures
            log::clone_keeps_view::<Cmd>() ==> (result is Ok ==> final(self).stored() == old(
                self,
            ).stored().append(log::entry_views(entries@))),
            old(self).may_answer(
                StorageCall::Append { entries: log::entry_views(entries@) },
                result,
                *final(self),
            ),
    ;

    /// Persists `snapshot` and brings the log into the state `disposition` names: `Retain` drops
    /// every entry at or below `snapshot.meta.last_index` and keeps the rest, `Discard` drops the
    /// entire log.
    ///
    /// The snapshot must reach durable storage before the log changes. In the reverse order, a
    /// crash between the two steps leaves neither the entries nor the snapshot that replaced them,
    /// losing committed state.
    ///
    /// The two must also recover as one unit. An implementation that persists the snapshot and
    /// then dies before applying `Discard` would otherwise come back with the new snapshot beside
    /// a suffix the caller had already invalidated, which is exactly the divergence section 7
    /// forbids.
    fn install_snapshot(
        &mut self,
        snapshot: &Snapshot,
        disposition: SuffixDisposition,
    ) -> (result: Result<(), Self::Error>)
        ensures
            result is Ok ==> final(self).stored() == old(self).stored().install_snapshot(
                snapshot@,
                disposition,
            ),
            old(self).may_answer(
                StorageCall::InstallSnapshot { snapshot: snapshot@, disposition },
                result,
                *final(self),
            ),
    ;
}

/// Whether loading from `storage` may come back with `result`.
pub open spec fn may_load<Cmd: Clone + View, S: Storage<Cmd>>(
    storage: &S,
    result: Result<LoadedState<Cmd>, S::Error>,
) -> bool {
    call_ensures(S::load, (storage,), result)
}

/// Whether asking `before` for these writes, each of them once, in order, and all of them answered
/// with success, may lead to `after`.
pub open spec fn wrote<Cmd: Clone + View, S: Storage<Cmd>>(
    before: S,
    calls: Seq<StorageCallOf<Cmd>>,
    after: S,
) -> bool
    decreases calls.len(),
{
    if calls.len() == 0 {
        after == before
    } else {
        exists|mid: S|
            wrote::<Cmd, S>(before, calls.drop_last(), mid) && #[trigger] mid.may_answer(
                calls.last(),
                Ok(()),
                after,
            )
    }
}

/// A run of writes that succeeded, and one more.
pub proof fn lemma_wrote_another<Cmd: Clone + View, S: Storage<Cmd>>(
    before: S,
    calls: Seq<StorageCallOf<Cmd>>,
    mid: S,
    call: StorageCallOf<Cmd>,
    after: S,
)
    requires
        wrote::<Cmd, S>(before, calls, mid),
        mid.may_answer(call, Ok(()), after),
    ensures
        wrote::<Cmd, S>(before, calls.push(call), after),
{
    let more = calls.push(call);
    assert(more.drop_last() =~= calls);
    assert(mid.may_answer(more.last(), Ok(()), after));
}

/// What loading may come back with is what the storage's own `load` may come back with. Asking for no
/// writes leaves storage as it was, and asking for one more asks for the others first and then for that
/// one, of the storage that they left.
pub proof fn law_storage_is_asked_one_write_at_a_time<Cmd: Clone + View, S: Storage<Cmd>>(
    before: S,
    calls: Seq<StorageCallOf<Cmd>>,
    call: StorageCallOf<Cmd>,
    after: S,
    result: Result<LoadedState<Cmd>, S::Error>,
)
    ensures
        may_load::<Cmd, S>(&before, result) <==> call_ensures(S::load, (&before,), result),
        wrote::<Cmd, S>(before, Seq::empty(), after) <==> after == before,
        wrote::<Cmd, S>(before, calls.push(call), after) <==> exists|mid: S|
            wrote::<Cmd, S>(before, calls, mid) && #[trigger] mid.may_answer(call, Ok(()), after),
{
    let more = calls.push(call);
    assert(more.drop_last() =~= calls);
    assert(more.last() == call);
    if wrote::<Cmd, S>(before, more, after) {
        let mid = choose|mid: S|
            wrote::<Cmd, S>(before, more.drop_last(), mid) && #[trigger] mid.may_answer(
                more.last(),
                Ok(()),
                after,
            );
        assert(mid.may_answer(call, Ok(()), after));
    }
    if exists|mid: S|
        wrote::<Cmd, S>(before, calls, mid) && #[trigger] mid.may_answer(call, Ok(()), after) {
        let mid = choose|mid: S|
            wrote::<Cmd, S>(before, calls, mid) && #[trigger] mid.may_answer(call, Ok(()), after);
        lemma_wrote_another::<Cmd, S>(before, calls, mid, call, after);
    }
}

} // verus!
