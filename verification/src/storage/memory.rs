//! Storage that forgets.
use vstd::prelude::*;

use super::LoadedState;
use super::Storage;
use super::StorageCall;
use super::StoredView;
use crate::storage;
use crate::types::log;
use crate::types::log::Log;
use crate::types::log::LogEntry;
use crate::types::log::SuffixDisposition;
use crate::types::primitives::LogIndex;
use crate::types::primitives::NodeId;
use crate::types::primitives::Term;
use crate::types::snapshot::Snapshot;

verus! {

/// Storage that keeps everything in memory and nothing on disk.
///
/// Suitable for single-process clusters and for tests, where losing state on restart is the
/// intended behaviour rather than a limitation. A cluster that must survive a restart needs files.
pub struct MemoryStorage<Cmd> {
    current_term: Term,
    voted_for: Option<NodeId>,
    snapshot: Option<Snapshot>,
    log: Log<Cmd>,
}

impl<Cmd: View> View for MemoryStorage<Cmd> {
    type V = StoredView<Cmd::V>;

    closed spec fn view(&self) -> StoredView<Cmd::V> {
        StoredView {
            term: self.current_term,
            voted_for: self.voted_for,
            snapshot: storage::snapshot_view(self.snapshot),
            log: self.log@,
        }
    }
}

impl<Cmd: View> MemoryStorage<Cmd> {
    /// Empty storage: term 0, no vote, no snapshot, no entries.
    pub fn new() -> (storage: Self)
        ensures
            storage@ == StoredView::<Cmd::V>::empty(),
    {
        MemoryStorage {
            current_term: Term { value: 0 },
            voted_for: None,
            snapshot: None,
            log: Log::new(),
        }
    }
}

impl<Cmd: View> Default for MemoryStorage<Cmd> {
    fn default() -> (storage: Self)
        ensures
            storage@ == StoredView::<Cmd::V>::empty(),
    {
        MemoryStorage::new()
    }
}

impl<Cmd: Clone + View> Storage<Cmd> for MemoryStorage<Cmd> {
    type Error = std::convert::Infallible;

    open spec fn stored(&self) -> StoredView<Cmd::V> {
        self@
    }

    /// Every write succeeds.
    open spec fn may_answer(
        &self,
        call: StorageCall<Cmd::V>,
        result: Result<(), Self::Error>,
        after: Self,
    ) -> bool {
        &&& result is Ok
        &&& log::clone_keeps_view::<Cmd>() ==> after@ == self@.after_call(call)
    }

    fn load(&self) -> (result: Result<LoadedState<Cmd>, Self::Error>)
        ensures
            result is Ok,
    {
        let copy = self.log.clone();
        let snapshot = match &self.snapshot {
            Some(s) => Some(s.clone()),
            None => None,
        };
        Ok(
            LoadedState {
                current_term: self.current_term,
                voted_for: self.voted_for,
                snapshot,
                entries: copy.into_entries(),
            },
        )
    }

    fn set_meta(&mut self, term: Term, voted_for: Option<NodeId>) -> (result: Result<
        (),
        Self::Error,
    >)
        ensures
            result is Ok,
    {
        self.current_term = term;
        self.voted_for = voted_for;
        Ok(())
    }

    fn truncate_from(&mut self, index: LogIndex) -> (result: Result<(), Self::Error>)
        ensures
            result is Ok,
    {
        self.log.truncate_from(index);
        Ok(())
    }

    fn append(&mut self, entries: &[LogEntry<Cmd>]) -> (result: Result<(), Self::Error>)
        ensures
            result is Ok,
    {
        self.log.extend(entries);
        Ok(())
    }

    /// Applies both halves in one call, so there is no window in which the snapshot is recorded
    /// and the log is not. Nothing here survives a restart anyway, but keeping the semantics
    /// identical to storage on disk is what lets the two back the same tests.
    fn install_snapshot(
        &mut self,
        snapshot: &Snapshot,
        disposition: SuffixDisposition,
    ) -> (result: Result<(), Self::Error>)
        ensures
            result is Ok,
    {
        match disposition {
            SuffixDisposition::Retain => self.log.compact_through(
                snapshot.meta.last_index,
                snapshot.meta.last_term,
            ),
            SuffixDisposition::Discard => self.log.reset_to_snapshot(
                snapshot.meta.last_index,
                snapshot.meta.last_term,
            ),
        }
        self.snapshot = Some(snapshot.clone());
        Ok(())
    }
}

} // verus!
