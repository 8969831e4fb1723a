//! The state a node must not forget, and the record of what storage has yet to see of it.
use vstd::prelude::*;

use crate::storage;
use crate::storage::LoadedState;
use crate::storage::Storage;
use crate::storage::StorageCall;
use crate::storage::StoredView;
use crate::types::log;
use crate::types::log::EntryView;
use crate::types::log::Log;
use crate::types::log::LogEntry;
use crate::types::log::LogView;
use crate::types::log::MergeOutcome;
use crate::types::log::SuffixDisposition;
use crate::types::primitives::LogIndex;
use crate::types::primitives::NodeId;
use crate::types::primitives::Term;
use crate::types::snapshot::Snapshot;
use crate::types::snapshot::SnapshotView;

verus! {

/// A snapshot install recorded in memory and awaiting replay to storage.
///
/// The disposition travels with the snapshot because storage cannot re-derive it: by the time it
/// runs, the local entry whose term decided the question is already inside the compacted prefix.
struct PendingSnapshotInstall {
    snapshot: Snapshot,
    disposition: SuffixDisposition,
}

/// What persistent state stands for: the state itself, and the record of unsaved changes.
#[verifier::ext_equal]
pub struct PersistentView<C> {
    pub term: Term,
    pub voted_for: Option<NodeId>,
    pub log: LogView<C>,
    pub latest_snapshot: Option<SnapshotView>,
    pub meta_dirty: bool,
    pub pending_install: Option<(SnapshotView, SuffixDisposition)>,
    pub truncated_from: Option<LogIndex>,
    pub pending_append: Seq<EntryView<C>>,
}

impl<C> PersistentView<C> {
    /// The state of a node that has never run.
    pub open spec fn fresh() -> Self {
        PersistentView {
            term: Term { value: 0 },
            voted_for: None,
            log: LogView::empty(),
            latest_snapshot: None,
            meta_dirty: false,
            pending_install: None,
            truncated_from: None,
            pending_append: Seq::empty(),
        }
    }

    /// The state that a node finds in storage when it starts.
    pub open spec fn restored(stored: StoredView<C>) -> Self {
        PersistentView {
            term: stored.term,
            voted_for: stored.voted_for,
            log: storage::log_after(stored.snapshot, stored.log.entries),
            latest_snapshot: stored.snapshot,
            meta_dirty: false,
            pending_install: None,
            truncated_from: None,
            pending_append: Seq::empty(),
        }
    }

    pub open spec fn set_term(self, term: Term) -> Self {
        PersistentView { term, meta_dirty: self.meta_dirty || term != self.term, ..self }
    }

    pub open spec fn set_voted_for(self, candidate: Option<NodeId>) -> Self {
        PersistentView {
            voted_for: candidate,
            meta_dirty: self.meta_dirty || candidate != self.voted_for,
            ..self
        }
    }

    pub open spec fn append_entry(self, entry: EntryView<C>) -> Self {
        PersistentView {
            log: self.log.push(entry),
            pending_append: self.pending_append.push(entry),
            ..self
        }
    }

    pub open spec fn merge_entries(self, prev: nat, incoming: Seq<EntryView<C>>) -> Self {
        let merged = self.log.merge(prev, incoming);
        match self.log.conflict(prev, incoming) {
            Some(from) => PersistentView {
                log: merged,
                truncated_from: Some(LogIndex { value: from as u64 }),
                pending_append: merged.suffix_from(from as int),
                ..self
            },
            None => PersistentView {
                log: merged,
                pending_append: self.pending_append + merged.suffix_from(
                    self.log.last_index() + 1int,
                ),
                ..self
            },
        }
    }

    pub open spec fn install_snapshot(
        self,
        snapshot: SnapshotView,
        disposition: SuffixDisposition,
    ) -> Self {
        let log = self.log.install(snapshot.last_index, snapshot.last_term, disposition);
        let installed = PersistentView {
            log,
            latest_snapshot: Some(snapshot),
            pending_install: Some((snapshot, disposition)),
            ..self
        };
        match disposition {
            SuffixDisposition::Retain => installed,
            SuffixDisposition::Discard => PersistentView {
                truncated_from: None,
                pending_append: Seq::empty(),
                ..installed
            },
        }
    }

    /// Storage once the metadata is replayed to it.
    pub open spec fn replay_meta(self, stored: StoredView<C>) -> StoredView<C> {
        if self.meta_dirty {
            stored.set_meta(self.term, self.voted_for)
        } else {
            stored
        }
    }

    /// Storage once the snapshot install is replayed to it.
    pub open spec fn replay_install(self, stored: StoredView<C>) -> StoredView<C> {
        match self.pending_install {
            Some((snapshot, disposition)) => stored.install_snapshot(snapshot, disposition),
            None => stored,
        }
    }

    /// Storage once the truncation is replayed to it.
    pub open spec fn replay_truncation(self, stored: StoredView<C>) -> StoredView<C> {
        match self.truncated_from {
            Some(from) => stored.truncate_from(from),
            None => stored,
        }
    }

    /// Storage once the appended suffix is replayed to it.
    pub open spec fn replay_append(self, stored: StoredView<C>) -> StoredView<C> {
        if self.pending_append.len() > 0 {
            stored.append(self.pending_append)
        } else {
            stored
        }
    }

    /// Storage once every recorded change is replayed to it, in order.
    pub open spec fn replay(self, stored: StoredView<C>) -> StoredView<C> {
        self.replay_append(
            self.replay_truncation(self.replay_install(self.replay_meta(stored))),
        )
    }

    /// Storage after a crash in the middle of replaying the record to it: of the metadata, the snapshot
    /// install, the truncation, and each of the appended entries, only the first `steps` arrived.
    pub open spec fn replay_part(self, stored: StoredView<C>, steps: nat) -> StoredView<C> {
        let noted = if steps >= 1 {
            self.replay_meta(stored)
        } else {
            stored
        };
        let installed = if steps >= 2 {
            self.replay_install(noted)
        } else {
            noted
        };
        let cut = if steps >= 3 {
            self.replay_truncation(installed)
        } else {
            installed
        };
        cut.append(self.pending_append.take(self.appended_part(steps) as int))
    }

    /// How many of the appended entries are among the first `steps` of the record.
    pub open spec fn appended_part(self, steps: nat) -> nat {
        if steps <= 3 {
            0
        } else if steps - 3 <= self.pending_append.len() {
            (steps - 3) as nat
        } else {
            self.pending_append.len()
        }
    }

    /// This state with the first `steps` of the four kinds of record cleared.
    pub open spec fn cleared(self, steps: nat) -> Self {
        PersistentView {
            meta_dirty: if steps >= 1 {
                false
            } else {
                self.meta_dirty
            },
            pending_install: if steps >= 2 {
                None
            } else {
                self.pending_install
            },
            truncated_from: if steps >= 3 {
                None
            } else {
                self.truncated_from
            },
            pending_append: if steps >= 4 {
                Seq::empty()
            } else {
                self.pending_append
            },
            ..self
        }
    }

    /// The write that replays the record of the given kind to storage, if there is one: the
    /// metadata, the snapshot install, the truncation, and the appended suffix, in that order.
    pub open spec fn call(self, kind: nat) -> Option<StorageCall<C>> {
        if kind == 0 && self.meta_dirty {
            Some(StorageCall::SetMeta { term: self.term, voted_for: self.voted_for })
        } else if kind == 1 && self.pending_install is Some {
            let (snapshot, disposition) = self.pending_install->0;
            Some(StorageCall::InstallSnapshot { snapshot, disposition })
        } else if kind == 2 && self.truncated_from is Some {
            Some(StorageCall::TruncateFrom { index: self.truncated_from->0 })
        } else if kind == 3 && self.pending_append.len() > 0 {
            Some(StorageCall::Append { entries: self.pending_append })
        } else {
            None
        }
    }

    /// The writes that replay the first `steps` of the four kinds of record, in order.
    pub open spec fn calls_part(self, steps: nat) -> Seq<StorageCall<C>>
        decreases steps,
    {
        if steps == 0 {
            Seq::empty()
        } else {
            let before = self.calls_part((steps - 1) as nat);
            match self.call((steps - 1) as nat) {
                Some(call) => before.push(call),
                None => before,
            }
        }
    }

    /// The writes that replay the whole record, in order.
    pub open spec fn calls(self) -> Seq<StorageCall<C>> {
        self.calls_part(4)
    }

    /// Nothing is recorded.
    pub open spec fn is_clean(self) -> bool {
        self == self.cleared(4)
    }

    /// Storage holds exactly this state.
    pub open spec fn mirrored_by(self, stored: StoredView<C>) -> bool {
        &&& stored.term == self.term
        &&& stored.voted_for == self.voted_for
        &&& stored.snapshot == self.latest_snapshot
        &&& stored.log == self.log
    }

    /// Replaying the record makes storage hold exactly this state.
    pub open spec fn in_sync(self, stored: StoredView<C>) -> bool {
        self.mirrored_by(self.replay(stored))
    }

    /// The last index that is durable, or becomes so before anything is appended.
    pub open spec fn durable_last(self, stored: StoredView<C>) -> nat {
        self.replay_truncation(self.replay_install(self.replay_meta(stored))).log.last_index()
    }

    /// The log starts where the latest snapshot ends.
    pub open spec fn consistent(self) -> bool {
        self.log == storage::log_after(self.latest_snapshot, self.log.entries)
    }
}

/// The state Figure 2 requires on stable storage: `current_term`, `voted_for`, and the log. All of
/// it must reach durable storage before this node responds to any RPC, since a response is a
/// promise the node must still honour after a crash.
///
/// `Node` is the single owner of the log, and `save` never reconstructs a diff by comparing against
/// storage. A length comparison in particular would miss a conflict overwrite that replaces entries
/// without changing the log length. Instead every mutation records exactly what it did (`set_term`
/// and `set_voted_for` mark the metadata dirty; `append_entry` and `merge_entries` record the
/// truncation point and the appended suffix), and `save` replays that record to storage and clears
/// it.
pub struct PersistentState<Cmd> {
    current_term: Term,
    voted_for: Option<NodeId>,
    log: Log<Cmd>,
    /// Set when the term or vote changed and storage has not seen it yet.
    meta_dirty: bool,
    /// Index a conflict truncated the log at, pending replay to storage.
    truncated_from: Option<LogIndex>,
    /// Entries appended since the last `save`, in index order.
    pending_append: Vec<LogEntry<Cmd>>,
    /// Snapshot recorded by a compaction or an install, replayed by `save` as
    /// `storage.install_snapshot` and then cleared. Same record-then-replay pattern as
    /// `truncated_from` and `pending_append`.
    pending_snapshot_install: Option<PendingSnapshotInstall>,
    /// The most recent snapshot, retained for the leader send path that builds `InstallSnapshot`
    /// RPCs. Unlike `pending_snapshot_install` it lives for the node's lifetime rather than until
    /// the next `save`.
    latest_snapshot: Option<Snapshot>,
}

impl<Cmd: View> View for PersistentState<Cmd> {
    type V = PersistentView<Cmd::V>;

    closed spec fn view(&self) -> PersistentView<Cmd::V> {
        PersistentView {
            term: self.current_term,
            voted_for: self.voted_for,
            log: self.log@,
            latest_snapshot: storage::snapshot_view(self.latest_snapshot),
            meta_dirty: self.meta_dirty,
            pending_install: match self.pending_snapshot_install {
                Some(pending) => Some((pending.snapshot@, pending.disposition)),
                None => None,
            },
            truncated_from: self.truncated_from,
            pending_append: log::entry_views(self.pending_append@),
        }
    }
}

impl<Cmd: Clone + View> PersistentState<Cmd> {
    /// Every index fits, and copies of commands stand for the same command.
    pub open spec fn wf(self) -> bool {
        &&& self@.log.last_index() <= u64::MAX
        &&& log::clone_keeps_view::<Cmd>()
    }

    /// The state of a node that has never run.
    pub fn new() -> (state: Self)
        requires
            log::clone_keeps_view::<Cmd>(),
        ensures
            state.wf(),
            state@ == PersistentView::<Cmd::V>::fresh(),
    {
        let state = PersistentState {
            current_term: Term { value: 0 },
            voted_for: None,
            log: Log::new(),
            meta_dirty: false,
            truncated_from: None,
            pending_append: Vec::new(),
            pending_snapshot_install: None,
            latest_snapshot: None,
        };
        assert(state@ =~= PersistentView::<Cmd::V>::fresh());
        state
    }

    /// Highest term this node has seen.
    pub fn current_term(&self) -> (term: Term)
        ensures
            term == self@.term,
    {
        self.current_term
    }

    /// Candidate this node voted for in `current_term`, if any.
    pub fn voted_for(&self) -> (candidate: Option<NodeId>)
        ensures
            candidate == self@.voted_for,
    {
        self.voted_for
    }

    /// The replicated log.
    pub fn log(&self) -> (log: &Log<Cmd>)
        ensures
            log@ == self@.log,
    {
        &self.log
    }

    /// The most recent snapshot, or `None` if the log was never compacted and no leader ever
    /// installed one.
    pub fn latest_snapshot(&self) -> (snapshot: Option<&Snapshot>)
        ensures
            snapshot is Some <==> self@.latest_snapshot is Some,
            snapshot matches Some(s) ==> self@.latest_snapshot == Some(s@),
    {
        match &self.latest_snapshot {
            Some(s) => Some(s),
            None => None,
        }
    }

    /// Records a new term, marking the metadata dirty only on an actual change so an unchanged
    /// term does not force a needless durable write.
    pub fn set_term(&mut self, term: Term)
        ensures
            final(self)@ == old(self)@.set_term(term),
    {
        if term != self.current_term {
            self.current_term = term;
            self.meta_dirty = true;
        }
    }

    /// Records a vote, marking the metadata dirty only on an actual change.
    pub fn set_voted_for(&mut self, candidate: Option<NodeId>)
        ensures
            final(self)@ == old(self)@.set_voted_for(candidate),
    {
        let same = match (candidate, self.voted_for) {
            (None, None) => true,
            (Some(a), Some(b)) => a == b,
            _ => false,
        };
        if !same {
            self.voted_for = candidate;
            self.meta_dirty = true;
        }
    }

    /// Leader-side append of one entry to the tail. Returns its assigned index.
    pub fn append_entry(&mut self, entry: LogEntry<Cmd>) -> (index: LogIndex)
        requires
            old(self).wf(),
            old(self)@.log.last_index() < u64::MAX,
        ensures
            final(self).wf(),
            final(self)@ == old(self)@.append_entry(entry@),
            index.value == final(self)@.log.last_index(),
    {
        let ghost before = self@;
        let index = self.log.append(entry.clone());
        self.pending_append.push(entry);
        assert(self@.pending_append =~= before.pending_append.push(entry@));
        index
    }

    /// Follower-side conflict resolution (section 5.3). Delegates to `Log::merge` and records the
    /// resulting truncation point and suffix, so `save` can hand storage the identical change.
    pub fn merge_entries(&mut self, prev_index: LogIndex, entries: Vec<LogEntry<Cmd>>) -> (outcome:
        MergeOutcome)
        requires
            old(self).wf(),
            prev_index.value + entries.len() <= u64::MAX,
        ensures
            final(self).wf(),
            final(self)@ == old(self)@.merge_entries(
                prev_index.value as nat,
                log::entry_views(entries@),
            ),
            (outcome is Truncated) == (old(self)@.log.conflict(
                prev_index.value as nat,
                log::entry_views(entries@),
            ) is Some),
    {
        let ghost before = self@;
        let last = self.log.last_index();
        let outcome = self.log.merge(prev_index, entries);
        match outcome {
            MergeOutcome::Truncated { from } => {
                self.truncated_from = Some(from);
                self.pending_append = log::clone_entries(self.log.suffix_from(from));
            },
            // What was appended starts one past the old end of the log. Deriving that position
            // from the retained length instead would name an index still held by an older entry
            // once compaction has moved the log's start, and storage would receive that entry a
            // second time.
            MergeOutcome::Appended => {
                if last.value < u64::MAX {
                    let first = LogIndex { value: last.value + 1 };
                    let mut added = log::clone_entries(self.log.suffix_from(first));
                    let ghost kept = self.pending_append@;
                    let ghost more = added@;
                    self.pending_append.append(&mut added);
                    proof {
                        assert(self.pending_append@ =~= kept + more);
                        assert(self@.pending_append =~= before.pending_append
                            + self@.log.suffix_from(before.log.last_index() + 1int));
                    }
                } else {
                    proof {
                        assert(self@.pending_append =~= before.pending_append
                            + self@.log.suffix_from(before.log.last_index() + 1int));
                    }
                }
            },
        }
        outcome
    }

    /// Reads term, vote, snapshot, and log back from durable storage.
    ///
    /// # Errors
    /// Whatever the storage backend reports, and nothing else.
    pub fn load<S: Storage<Cmd>>(storage: &S) -> (result: Result<Self, S::Error>)
        requires
            log::clone_keeps_view::<Cmd>(),
            storage::log_after(
                storage.stored().snapshot,
                storage.stored().log.entries,
            ).last_index() <= u64::MAX,
        ensures
            match result {
                Ok(state) => {
                    &&& state.wf()
                    &&& state@ == PersistentView::restored(storage.stored())
                    &&& exists|loaded: LoadedState<Cmd>| #[trigger]
                        storage::may_load::<Cmd, S>(storage, Ok(loaded))
                },
                Err(e) => storage::may_load::<Cmd, S>(storage, Err(e)),
            },
    {
        let loaded = match storage.load() {
            Ok(loaded) => loaded,
            Err(e) => {
                return Err(e);
            },
        };
        assert(storage::may_load::<Cmd, S>(storage, Ok(loaded)));
        // A persisted snapshot fixes the log's index offset. `from_entries` would place the
        // surviving suffix at index 1 instead, shifting every index in the log by the size of the
        // compacted prefix.
        let log = match &loaded.snapshot {
            Some(snapshot) => Log::from_snapshot_and_suffix(
                snapshot.meta.last_index,
                snapshot.meta.last_term,
                loaded.entries,
            ),
            None => Log::from_entries(loaded.entries),
        };
        let state = PersistentState {
            current_term: loaded.current_term,
            voted_for: loaded.voted_for,
            log,
            meta_dirty: false,
            truncated_from: None,
            pending_append: Vec::new(),
            pending_snapshot_install: None,
            latest_snapshot: loaded.snapshot,
        };
        assert(state@ =~= PersistentView::restored(storage.stored()));
        Ok(state)
    }

    /// Replays every recorded change to storage and clears the record.
    ///
    /// The order is fixed: metadata, then snapshot install, then truncation, then append. A
    /// truncation applied before its snapshot, or an append before the truncation that makes room
    /// for it, would leave storage holding entries the in-memory log has already discarded.
    ///
    /// # Errors
    /// Whatever the storage backend reports. The uncompleted part of the record is retained, so a
    /// later `save` can retry it. Each record is cleared only after the call that consumed it
    /// returned success, since a record dropped ahead of the write it describes can never be
    /// replayed.
    pub fn save<S: Storage<Cmd>>(&mut self, storage: &mut S) -> (result: Result<(), S::Error>)
        requires
            old(self).wf(),
        ensures
            final(self).wf(),
            match result {
                Ok(()) => {
                    &&& final(storage).stored() == old(self)@.replay(old(storage).stored())
                    &&& storage::wrote::<Cmd, S>(*old(storage), old(self)@.calls(), *final(storage))
                    &&& final(self)@ == old(self)@.cleared(4)
                },
                Err(e) => save_failed::<Cmd, S>(
                    old(self)@,
                    *old(storage),
                    e,
                    final(self)@,
                    *final(storage),
                ),
            },
            old(self)@.is_clean() ==> result is Ok && *final(storage) == *old(storage),
    {
        let ghost before = self@;
        let ghost s0 = *storage;
        if self.meta_dirty {
            match storage.set_meta(self.current_term, self.voted_for) {
                Ok(done) => {
                    assert(done == ());
                },
                Err(e) => {
                    proof {
                        assert(self@ =~= before.cleared(0));
                        lemma_failed::<Cmd, S>(before, s0, 0, s0, e, *storage);
                    }
                    return Err(e);
                },
            }
            self.meta_dirty = false;
        }
        let ghost s1 = *storage;
        proof {
            assert(self@ =~= before.cleared(1));
            assert(s1.stored() == before.replay_meta(s0.stored()));
            lemma_replayed::<Cmd, S>(before, s0, 0, s0, s1);
        }
        let installed = match &self.pending_snapshot_install {
            Some(pending) => {
                match storage.install_snapshot(&pending.snapshot, pending.disposition) {
                    Ok(done) => {
                        assert(done == ());
                    },
                    Err(e) => {
                        proof {
                            lemma_failed::<Cmd, S>(before, s0, 1, s1, e, *storage);
                        }
                        return Err(e);
                    },
                }
                true
            },
            None => false,
        };
        if installed {
            self.pending_snapshot_install = None;
        }
        let ghost s2 = *storage;
        proof {
            assert(self@ =~= before.cleared(2));
            assert(s2.stored() == before.replay_install(s1.stored()));
            lemma_replayed::<Cmd, S>(before, s0, 1, s1, s2);
        }
        if let Some(from) = self.truncated_from {
            match storage.truncate_from(from) {
                Ok(done) => {
                    assert(done == ());
                },
                Err(e) => {
                    proof {
                        lemma_failed::<Cmd, S>(before, s0, 2, s2, e, *storage);
                    }
                    return Err(e);
                },
            }
            self.truncated_from = None;
        }
        let ghost s3 = *storage;
        proof {
            assert(self@ =~= before.cleared(3));
            assert(s3.stored() == before.replay_truncation(s2.stored()));
            lemma_replayed::<Cmd, S>(before, s0, 2, s2, s3);
        }
        if self.pending_append.len() > 0 {
            match storage.append(self.pending_append.as_slice()) {
                Ok(done) => {
                    assert(done == ());
                },
                Err(e) => {
                    proof {
                        lemma_failed::<Cmd, S>(before, s0, 3, s3, e, *storage);
                    }
                    return Err(e);
                },
            }
            self.pending_append.clear();
        }
        proof {
            assert(self@ =~= before.cleared(4));
            lemma_replayed::<Cmd, S>(before, s0, 3, s3, *storage);
        }
        Ok(())
    }

    /// Applies `snapshot` to the in-memory log and records it, with the disposition, for `save` to
    /// replay as a single storage call.
    ///
    /// A `Discard` supersedes every earlier log mutation still pending, so the recorded truncation
    /// and suffix go with it. Replaying them after the install would put entries back into storage
    /// that this node has just declared invalid.
    pub fn install_snapshot(&mut self, snapshot: Snapshot, disposition: SuffixDisposition)
        requires
            old(self).wf(),
        ensures
            final(self).wf(),
            final(self)@ == old(self)@.install_snapshot(snapshot@, disposition),
    {
        let ghost before = self@;
        let last_index = snapshot.meta.last_index;
        let last_term = snapshot.meta.last_term;
        match disposition {
            SuffixDisposition::Retain => {
                self.log.compact_through(last_index, last_term);
            },
            SuffixDisposition::Discard => {
                self.log.reset_to_snapshot(last_index, last_term);
                self.truncated_from = None;
                self.pending_append.clear();
                assert(self@.pending_append =~= Seq::<EntryView<Cmd::V>>::empty());
            },
        }
        self.latest_snapshot = Some(snapshot.clone());
        self.pending_snapshot_install = Some(PendingSnapshotInstall { snapshot, disposition });
    }
}

/// Whether a save of `state` may fail with `e`, leave `left` of it to be saved, and turn storage from
/// `before` into `after`: the writes for the first few kinds of record succeeded, the next write
/// failed with that very error, and none came after it. What succeeded is cleared from the record,
/// and the rest is still in it.
pub open spec fn save_failed<Cmd: Clone + View, S: Storage<Cmd>>(
    state: PersistentView<Cmd::V>,
    before: S,
    e: S::Error,
    left: PersistentView<Cmd::V>,
    after: S,
) -> bool {
    exists|steps: nat, mid: S|
        #![trigger state.cleared(steps), mid.stored()]
        {
            &&& steps < 4
            &&& left == state.cleared(steps)
            &&& storage::wrote::<Cmd, S>(before, state.calls_part(steps), mid)
            &&& mid.stored() == state.replay_part(before.stored(), steps)
            &&& state.call(steps) matches Some(call) && mid.may_answer(call, Err(e), after)
        }
}

/// The replay has come to `mid`, and the next write fails.
proof fn lemma_failed<Cmd: Clone + View, S: Storage<Cmd>>(
    state: PersistentView<Cmd::V>,
    before: S,
    steps: nat,
    mid: S,
    e: S::Error,
    after: S,
)
    requires
        steps < 4,
        storage::wrote::<Cmd, S>(before, state.calls_part(steps), mid),
        mid.stored() == state.replay_part(before.stored(), steps),
        state.call(steps) matches Some(call) && mid.may_answer(call, Err(e), after),
    ensures
        save_failed::<Cmd, S>(state, before, e, state.cleared(steps), after),
{
}

/// The replay has come to `mid`, and comes to `next` with the record of one more kind.
proof fn lemma_replayed<Cmd: Clone + View, S: Storage<Cmd>>(
    state: PersistentView<Cmd::V>,
    before: S,
    steps: nat,
    mid: S,
    next: S,
)
    requires
        storage::wrote::<Cmd, S>(before, state.calls_part(steps), mid),
        match state.call(steps) {
            Some(call) => mid.may_answer(call, Ok(()), next),
            None => next == mid,
        },
    ensures
        storage::wrote::<Cmd, S>(before, state.calls_part(steps + 1), next),
{
    if let Some(call) = state.call(steps) {
        storage::lemma_wrote_another::<Cmd, S>(before, state.calls_part(steps), mid, call, next);
    }
}

/// A save asks storage for at most one write of each kind, and only for those that something is
/// recorded for: the metadata, then the snapshot install, then the truncation, then the append, which
/// is never empty. With nothing recorded it asks for nothing, so that saving twice is saving once.
pub proof fn law_save_writes_each_record_once_in_order<C>(state: PersistentView<C>)
    ensures
        state.calls().len() <= 4,
        forall|i: int, j: int|
            0 <= i < j < state.calls().len() ==> #[trigger] kind_of(state.calls()[i])
                < #[trigger] kind_of(state.calls()[j]),
        forall|i: int, j: int|
            #![trigger state.calls()[i], state.calls()[j]]
            0 <= i < j < state.calls().len() ==> match state.calls()[j] {
                StorageCall::SetMeta { .. } => false,
                StorageCall::InstallSnapshot { .. } => state.calls()[i] is SetMeta,
                StorageCall::TruncateFrom { .. } => state.calls()[i] is SetMeta
                    || state.calls()[i] is InstallSnapshot,
                StorageCall::Append { .. } => !(state.calls()[i] is Append),
            },
        forall|call: StorageCall<C>| #[trigger]
            state.calls().contains(call) <==> match call {
                StorageCall::SetMeta { term, voted_for } => state.meta_dirty && term == state.term
                    && voted_for == state.voted_for,
                StorageCall::InstallSnapshot { snapshot, disposition } => state.pending_install
                    == Some((snapshot, disposition)),
                StorageCall::TruncateFrom { index } => state.truncated_from == Some(index),
                StorageCall::Append { entries } => entries == state.pending_append && entries.len()
                    > 0,
            },
        state.is_clean() ==> state.calls() == Seq::<StorageCall<C>>::empty(),
        state.is_clean() <==> !state.meta_dirty && state.pending_install is None
            && state.truncated_from is None && state.pending_append.len() == 0,
        state.cleared(4).calls() == Seq::<StorageCall<C>>::empty(),
{
    lemma_calls(state, 4);
    lemma_calls(state.cleared(4), 4);
    let calls = state.calls();
    if state.pending_append.len() == 0 {
        assert(state.pending_append =~= Seq::empty());
    }
    assert forall|i: int, j: int|
        #![trigger calls[i], calls[j]]
        0 <= i < j < calls.len() implies kind_of(calls[i]) < kind_of(calls[j]) by {}
    assert forall|call: StorageCall<C>| #[trigger] calls.contains(call) implies state.call(
        kind_of(call),
    ) == Some(call) by {
        let i = choose|i: int| 0 <= i < calls.len() && calls[i] == call;
        assert(state.call(kind_of(calls[i])) == Some(calls[i]));
    }
    assert forall|call: StorageCall<C>|
        state.call(kind_of(call)) == Some(call) implies #[trigger] calls.contains(call) by {
        assert(calls.contains(state.call(kind_of(call))->0));
    }
    if state.cleared(4).calls().len() > 0 {
        let cleared = state.cleared(4);
        assert(cleared.call(kind_of(cleared.calls()[0])) is Some);
    }
    assert(state.cleared(4).calls() =~= Seq::<StorageCall<C>>::empty());
}

/// Where a write comes in the order in which a save asks for them.
pub open spec fn kind_of<C>(call: StorageCall<C>) -> nat {
    match call {
        StorageCall::SetMeta { .. } => 0,
        StorageCall::InstallSnapshot { .. } => 1,
        StorageCall::TruncateFrom { .. } => 2,
        StorageCall::Append { .. } => 3,
    }
}

proof fn lemma_calls<C>(state: PersistentView<C>, steps: nat)
    requires
        steps <= 4,
    ensures
        state.calls_part(steps).len() <= steps,
        forall|i: int|
            0 <= i < state.calls_part(steps).len() ==> {
                let call = #[trigger] state.calls_part(steps)[i];
                kind_of(call) < steps && state.call(kind_of(call)) == Some(call)
            },
        forall|i: int, j: int|
            0 <= i < j < state.calls_part(steps).len() ==> #[trigger] kind_of(
                state.calls_part(steps)[i],
            ) < #[trigger] kind_of(state.calls_part(steps)[j]),
        forall|kind: nat|
            kind < steps && (#[trigger] state.call(kind)) is Some ==> state.calls_part(
                steps,
            ).contains(state.call(kind)->0),
    decreases steps,
{
    if steps > 0 {
        let less = (steps - 1) as nat;
        lemma_calls(state, less);
        let part = state.calls_part(less);
        let calls = state.calls_part(steps);
        assert forall|kind: nat|
            kind < steps && (#[trigger] state.call(kind)) is Some implies calls.contains(
            state.call(kind)->0,
        ) by {
            if kind < less {
                let i = choose|i: int| 0 <= i < part.len() && part[i] == state.call(kind)->0;
                assert(calls[i] == part[i]);
            } else {
                assert(calls[part.len() as int] == state.call(kind)->0);
            }
        }
        assert forall|i: int| 0 <= i < calls.len() implies {
            let call = #[trigger] calls[i];
            kind_of(call) < steps && state.call(kind_of(call)) == Some(call)
        } by {
            if i < part.len() {
                assert(calls[i] == part[i]);
            }
        }
        assert forall|i: int, j: int| 0 <= i < j < calls.len() implies #[trigger] kind_of(calls[i])
            < #[trigger] kind_of(calls[j]) by {
            assert(calls[i] == part[i]);
            if j < part.len() {
                assert(calls[j] == part[j]);
            }
        }
    }
}

/// The writes that a save asks for replay the record.
pub proof fn law_writes_of_a_save_replay_the_record<C>(
    state: PersistentView<C>,
    stored: StoredView<C>,
)
    ensures
        stored.after_calls(state.calls()) == state.replay(stored),
{
    let s1 = state.replay_meta(stored);
    let s2 = state.replay_install(s1);
    let s3 = state.replay_truncation(s2);
    lemma_call_replayed(state, stored, 0, stored, s1);
    lemma_call_replayed(state, stored, 1, s1, s2);
    lemma_call_replayed(state, stored, 2, s2, s3);
    lemma_call_replayed(state, stored, 3, s3, state.replay_append(s3));
}

proof fn lemma_call_replayed<C>(
    state: PersistentView<C>,
    stored: StoredView<C>,
    steps: nat,
    mid: StoredView<C>,
    next: StoredView<C>,
)
    requires
        stored.after_calls(state.calls_part(steps)) == mid,
        next == match state.call(steps) {
            Some(call) => mid.after_call(call),
            None => mid,
        },
    ensures
        stored.after_calls(state.calls_part(steps + 1)) == next,
{
    if let Some(call) = state.call(steps) {
        let part = state.calls_part(steps);
        assert(part.push(call).drop_last() =~= part);
    }
}

/// A save that failed is taken up again by the next one where it stopped: the next save begins with
/// the write that failed, asks for the writes that had not been tried, repeats none that succeeded,
/// and brings storage to where the first save would have brought it.
pub proof fn law_failed_save_is_taken_up_where_it_stopped<C>(
    state: PersistentView<C>,
    stored: StoredView<C>,
    steps: nat,
)
    requires
        steps < 4,
        state.call(steps) is Some,
    ensures
        state.cleared(steps).calls().len() > 0,
        state.cleared(steps).calls()[0] == state.call(steps)->0,
        state.calls() == state.calls_part(steps) + state.cleared(steps).calls(),
        state.cleared(steps).replay(state.replay_part(stored, steps)) == state.replay(stored),
        state.cleared(steps).cleared(4) == state.cleared(4),
{
    let left = state.cleared(steps);
    reveal_with_fuel(PersistentView::calls_part, 5);
    assert(state.calls() =~= state.calls_part(steps) + left.calls());
    let s1 = state.replay_meta(stored);
    let s2 = state.replay_install(s1);
    let reached = if steps == 0 {
        stored
    } else if steps == 1 {
        s1
    } else if steps == 2 {
        s2
    } else {
        state.replay_truncation(s2)
    };
    assert(reached.append(state.pending_append.take(0)) =~= reached) by {
        assert(reached.log.extend(state.pending_append.take(0)) =~= reached.log);
    }
}

/// What a successful save wrote, loading gives back: a node that restarts from its storage finds
/// the term, the vote, the snapshot, and the log it had.
pub proof fn law_load_gives_back_what_was_saved<C>(state: PersistentView<C>, stored: StoredView<C>)
    requires
        state.in_sync(stored),
        state.consistent(),
    ensures
        PersistentView::restored(state.replay(stored)) == state.cleared(4),
{
    let restored = PersistentView::restored(state.replay(stored));
    assert(restored =~= state.cleared(4));
}

/// Once everything is replayed, storage mirrors the state and there is nothing left to replay.
pub proof fn law_saved_state_is_in_sync<C>(state: PersistentView<C>, stored: StoredView<C>)
    requires
        state.in_sync(stored),
    ensures
        state.cleared(4).mirrored_by(state.replay(stored)),
        state.cleared(4).in_sync(state.replay(stored)),
{
}

/// A replay that is not interrupted before its end is complete.
pub proof fn law_whole_replay<C>(state: PersistentView<C>, stored: StoredView<C>, steps: nat)
    requires
        steps >= 3 + state.pending_append.len(),
    ensures
        state.replay_part(stored, steps) == state.replay(stored),
{
    let cut = state.replay_truncation(state.replay_install(state.replay_meta(stored)));
    assert(state.pending_append.take(state.pending_append.len() as int) =~= state.pending_append);
    if state.pending_append.len() == 0 {
        assert(cut.append(state.pending_append) =~= cut);
    }
}

/// Changing the term or the vote keeps the record complete.
pub proof fn law_metadata_changes_stay_in_sync<C>(
    state: PersistentView<C>,
    stored: StoredView<C>,
    term: Term,
    candidate: Option<NodeId>,
)
    requires
        state.in_sync(stored),
    ensures
        state.set_term(term).in_sync(stored),
        state.set_voted_for(candidate).in_sync(stored),
{
}

/// Appending an entry keeps the record complete.
pub proof fn law_append_stays_in_sync<C>(
    state: PersistentView<C>,
    stored: StoredView<C>,
    entry: EntryView<C>,
)
    requires
        state.in_sync(stored),
    ensures
        state.append_entry(entry).in_sync(stored),
{
    let base = state.replay_truncation(state.replay_install(state.replay_meta(stored)));
    assert(state.replay(stored).log =~= base.log.extend(state.pending_append));
    let after = state.append_entry(entry);
    assert(base.log.extend(after.pending_append) =~= base.log.extend(state.pending_append).push(
        entry,
    ));
}

/// Merging entries keeps the record complete, unless it overwrites entries that were appended
/// behind others which are not durable yet.
pub proof fn law_merge_stays_in_sync<C>(
    state: PersistentView<C>,
    stored: StoredView<C>,
    prev: nat,
    incoming: Seq<EntryView<C>>,
)
    requires
        state.in_sync(stored),
        prev <= state.log.last_index(),
        prev + incoming.len() <= u64::MAX,
        state.log.conflict(prev, incoming) matches Some(from) ==> from <= state.durable_last(stored)
            + 1,
    ensures
        state.merge_entries(prev, incoming).in_sync(stored),
{
    log::lemma_held(state.log, prev, incoming);
    let n = state.log.held(prev, incoming);
    if n > 0 {
        assert(state.log.holds(prev, incoming, n - 1));
    }
    let installed = state.replay_install(state.replay_meta(stored));
    let base = state.replay_truncation(installed);
    assert(state.replay(stored).log =~= base.log.extend(state.pending_append));
    let merged = state.log.merge(prev, incoming);
    let after = state.merge_entries(prev, incoming);
    match state.log.conflict(prev, incoming) {
        Some(from) => {
            let cut = installed.log.truncate_from(from as int);
            let kept = state.log.truncate_from(from as int);
            assert(cut.entries =~= kept.entries);
            assert(merged.entries =~= kept.entries + merged.suffix_from(from as int));
            assert(after.replay(stored).log =~= cut.extend(after.pending_append));
        },
        None => {
            let added = merged.suffix_from(state.log.last_index() + 1int);
            assert(merged.entries =~= state.log.entries + added);
            assert(after.replay(stored).log =~= base.log.extend(state.pending_append + added));
            assert(base.log.extend(state.pending_append + added) =~= base.log.extend(
                state.pending_append,
            ).extend(added));
        },
    }
}

/// Installing a snapshot that replaces the whole log keeps the record complete, whatever was
/// recorded before.
pub proof fn law_discard_stays_in_sync<C>(
    state: PersistentView<C>,
    stored: StoredView<C>,
    snapshot: SnapshotView,
)
    requires
        state.in_sync(stored),
    ensures
        state.install_snapshot(snapshot, SuffixDisposition::Discard).in_sync(stored),
{
}

/// Compacting the log, or installing a snapshot that agrees with it, keeps the record complete
/// when every change to the log before it has been saved.
pub proof fn law_retain_stays_in_sync<C>(
    state: PersistentView<C>,
    stored: StoredView<C>,
    snapshot: SnapshotView,
)
    requires
        state.in_sync(stored),
        state.pending_install is None,
        state.truncated_from is None,
        state.pending_append.len() == 0,
    ensures
        state.install_snapshot(snapshot, SuffixDisposition::Retain).in_sync(stored),
{
}

/// A save that fails fails with the very error that a write came back with. The writes before that one
/// succeeded and are not asked for again, that one and those behind it are still on record, in order,
/// and the state that is to be saved stays what it was.
pub proof fn law_failed_save_keeps_what_was_not_written<Cmd: Clone + View, S: Storage<Cmd>>(
    state: PersistentView<Cmd::V>,
    before: S,
    e: S::Error,
    left: PersistentView<Cmd::V>,
    after: S,
)
    requires
        save_failed::<Cmd, S>(state, before, e, left, after),
    ensures
        left.term == state.term,
        left.voted_for == state.voted_for,
        left.log == state.log,
        left.latest_snapshot == state.latest_snapshot,
        left.calls().len() > 0,
        exists|written: nat, mid: S|
            #![trigger state.calls().take(written as int), mid.stored()]
            {
                &&& written + left.calls().len() == state.calls().len()
                &&& state.calls().skip(written as int) == left.calls()
                &&& storage::wrote::<Cmd, S>(before, state.calls().take(written as int), mid)
                &&& mid.may_answer(left.calls()[0], Err(e), after)
                &&& left.replay(mid.stored()) == state.replay(before.stored())
            },
{
    let (steps, mid) = choose|steps: nat, mid: S|
        #![trigger state.cleared(steps), mid.stored()]
        {
            &&& steps < 4
            &&& left == state.cleared(steps)
            &&& storage::wrote::<Cmd, S>(before, state.calls_part(steps), mid)
            &&& mid.stored() == state.replay_part(before.stored(), steps)
            &&& state.call(steps) matches Some(call) && mid.may_answer(call, Err(e), after)
        };
    law_failed_save_is_taken_up_where_it_stopped(state, before.stored(), steps);
    let written = state.calls_part(steps).len();
    assert(state.calls().take(written as int) =~= state.calls_part(steps));
    assert(state.calls().skip(written as int) =~= left.calls());
    assert(mid.stored() == mid.stored());
}

} // verus!
