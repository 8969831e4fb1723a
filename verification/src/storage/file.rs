//! How state is laid out over files, and how it is put together again after a crash.
//!
//! State lives in up to four files. One holds the current term and vote, and one the most recent
//! snapshot, if any. The log file holds one entry after another, optionally preceded by a header
//! that names the index of the first. A fourth exists only while a snapshot install is in flight.
//!
//! What is written, and in which order, is decided here. Each write is carried out whole or not at
//! all, and is durable before the next one begins, so a crash leaves a prefix of the writes behind.
use vstd::prelude::*;

use super::LoadedState;
use super::StoredView;
use crate::storage;
use crate::types::log;
use crate::types::log::EntryView;
use crate::types::log::Log;
use crate::types::log::LogEntry;
use crate::types::log::LogView;
use crate::types::log::SuffixDisposition;
use crate::types::primitives::LogIndex;
use crate::types::primitives::NodeId;
use crate::types::primitives::Term;
use crate::types::snapshot::Snapshot;
use crate::types::snapshot::SnapshotView;

verus! {

/// Record of a snapshot install that has started and not yet finished.
///
/// It names the boundary being installed and what was decided about the entries above it. It is
/// found at startup only after a crash, and is used to finish or roll back the install before
/// serving any read.
#[derive(Clone, Copy, Debug, PartialEq, Eq, Structural)]
pub struct InstallIntent {
    pub last_index: LogIndex,
    pub last_term: Term,
    pub disposition: SuffixDisposition,
}

/// The record for installing `snapshot`.
pub open spec fn intent_for(snapshot: SnapshotView, disposition: SuffixDisposition) -> InstallIntent {
    InstallIntent {
        last_index: LogIndex { value: snapshot.last_index as u64 },
        last_term: Term { value: snapshot.last_term as u64 },
        disposition,
    }
}

/// Whether `intent` was written for `snapshot`.
pub open spec fn covers(intent: InstallIntent, snapshot: SnapshotView) -> bool {
    snapshot.last_index == intent.last_index.value && snapshot.last_term == intent.last_term.value
}

impl InstallIntent {
    /// The record for installing `snapshot`.
    pub fn new(snapshot: &Snapshot, disposition: SuffixDisposition) -> (intent: Self)
        ensures
            intent == intent_for(snapshot@, disposition),
    {
        InstallIntent {
            last_index: snapshot.meta.last_index,
            last_term: snapshot.meta.last_term,
            disposition,
        }
    }

    /// Whether `snapshot` is the one this record was written for.
    ///
    /// A boundary is identified by index and term together. Two snapshots sharing both describe the
    /// same committed prefix, so either one satisfies the record.
    pub fn covers(&self, snapshot: &Snapshot) -> (yes: bool)
        ensures
            yes == covers(*self, snapshot@),
    {
        snapshot.meta.last_index.value == self.last_index.value && snapshot.meta.last_term.value
            == self.last_term.value
    }
}

/// What the files hold.
pub struct Files<Cmd> {
    pub current_term: Term,
    pub voted_for: Option<NodeId>,
    pub snapshot: Option<Snapshot>,
    /// The index that the first entry of the log file occupies: what its header says, or 1.
    pub first_index: LogIndex,
    pub entries: Vec<LogEntry<Cmd>>,
    pub intent: Option<InstallIntent>,
}

/// What the contents of the files stand for.
#[verifier::ext_equal]
pub struct FilesView<C> {
    pub term: Term,
    pub voted_for: Option<NodeId>,
    pub snapshot: Option<SnapshotView>,
    pub first_index: nat,
    pub entries: Seq<EntryView<C>>,
    pub intent: Option<InstallIntent>,
}

impl<Cmd: View> View for Files<Cmd> {
    type V = FilesView<Cmd::V>;

    open spec fn view(&self) -> FilesView<Cmd::V> {
        FilesView {
            term: self.current_term,
            voted_for: self.voted_for,
            snapshot: storage::snapshot_view(self.snapshot),
            first_index: self.first_index.value as nat,
            entries: log::entry_views(self.entries@),
            intent: self.intent,
        }
    }
}

impl<C> FilesView<C> {
    /// Whether a discard that a crash interrupted has to be finished.
    pub open spec fn discards_suffix(self) -> bool {
        self.snapshot matches Some(snapshot) && (self.intent matches Some(intent) && covers(
            intent,
            snapshot,
        ) && intent.disposition == SuffixDisposition::Discard)
    }

    /// The entries of the log file that lie above `boundary`.
    pub open spec fn entries_above(self, boundary: nat) -> Seq<EntryView<C>> {
        if self.first_index + self.entries.len() <= boundary + 1 {
            Seq::empty()
        } else if self.first_index > boundary {
            self.entries
        } else {
            self.entries.skip(boundary + 1 - self.first_index)
        }
    }

    /// The log that the files stand for.
    ///
    /// An intent record whose boundary matches the stored snapshot means the snapshot half reached
    /// disk, so the install counts as committed and its disposition decides the log. An intent that
    /// does not match names an install whose snapshot never landed; the log half had not run
    /// either, so what is on disk still stands.
    pub open spec fn log(self) -> LogView<C> {
        match self.snapshot {
            None => LogView { boundary: 0, boundary_term: 0, entries: self.entries },
            Some(snapshot) => LogView {
                boundary: snapshot.last_index,
                boundary_term: snapshot.last_term,
                entries: if self.discards_suffix() {
                    Seq::empty()
                } else {
                    self.entries_above(snapshot.last_index)
                },
            },
        }
    }

    /// The state that the files stand for.
    pub open spec fn recovered(self) -> StoredView<C> {
        StoredView {
            term: self.term,
            voted_for: self.voted_for,
            snapshot: self.snapshot,
            log: self.log(),
        }
    }

    /// Whether the files hold `stored`, with nothing left to finish.
    pub open spec fn hold(self, stored: StoredView<C>) -> bool {
        &&& self.term == stored.term
        &&& self.voted_for == stored.voted_for
        &&& self.snapshot == stored.snapshot
        &&& self.first_index == stored.log.boundary + 1
        &&& self.entries == stored.log.entries
        &&& self.intent is None
    }
}

/// One durable change to the files.
pub enum FileWrite<Cmd> {
    /// Replace the term and the vote.
    Meta { term: Term, voted_for: Option<NodeId> },
    /// Replace the snapshot.
    Snapshot { snapshot: Snapshot },
    /// Record that an install has started.
    Intent { intent: InstallIntent },
    /// Add an entry to the log file.
    Append { entry: LogEntry<Cmd> },
    /// Replace the log file by a header and these entries.
    Rewrite { first_index: LogIndex, entries: Vec<LogEntry<Cmd>> },
    /// Record that the install has finished.
    ClearIntent,
}

/// What a durable change stands for.
#[verifier::ext_equal]
#[allow(inconsistent_fields)]
pub enum FileWriteView<C> {
    Meta { term: Term, voted_for: Option<NodeId> },
    Snapshot { snapshot: SnapshotView },
    Intent { intent: InstallIntent },
    Append { entry: EntryView<C> },
    Rewrite { first_index: nat, entries: Seq<EntryView<C>> },
    ClearIntent,
}

impl<Cmd: View> View for FileWrite<Cmd> {
    type V = FileWriteView<Cmd::V>;

    open spec fn view(&self) -> FileWriteView<Cmd::V> {
        match *self {
            FileWrite::Meta { term, voted_for } => FileWriteView::Meta { term, voted_for },
            FileWrite::Snapshot { snapshot } => FileWriteView::Snapshot { snapshot: snapshot@ },
            FileWrite::Intent { intent } => FileWriteView::Intent { intent },
            FileWrite::Append { entry } => FileWriteView::Append { entry: entry@ },
            FileWrite::Rewrite { first_index, entries } => FileWriteView::Rewrite {
                first_index: first_index.value as nat,
                entries: log::entry_views(entries@),
            },
            FileWrite::ClearIntent => FileWriteView::ClearIntent,
        }
    }
}

/// What a list of changes stands for.
pub open spec fn write_views<Cmd: View>(writes: Seq<FileWrite<Cmd>>) -> Seq<FileWriteView<Cmd::V>> {
    Seq::new(writes.len(), |i: int| writes[i]@)
}

impl<C> FileWriteView<C> {
    /// The files after this change.
    pub open spec fn apply(self, files: FilesView<C>) -> FilesView<C> {
        match self {
            FileWriteView::Meta { term, voted_for } => FilesView { term, voted_for, ..files },
            FileWriteView::Snapshot { snapshot } => FilesView {
                snapshot: Some(snapshot),
                ..files
            },
            FileWriteView::Intent { intent } => FilesView { intent: Some(intent), ..files },
            FileWriteView::Append { entry } => FilesView {
                entries: files.entries.push(entry),
                ..files
            },
            FileWriteView::Rewrite { first_index, entries } => FilesView {
                first_index,
                entries,
                ..files
            },
            FileWriteView::ClearIntent => FilesView { intent: None, ..files },
        }
    }
}

/// The files after a list of changes.
pub open spec fn apply_all<C>(files: FilesView<C>, writes: Seq<FileWriteView<C>>) -> FilesView<C>
    decreases writes.len(),
{
    if writes.len() == 0 {
        files
    } else {
        writes.last().apply(apply_all(files, writes.drop_last()))
    }
}

/// The change that writes the whole log anew.
pub open spec fn rewrite_of<C>(log: LogView<C>) -> FileWriteView<C> {
    FileWriteView::Rewrite { first_index: log.boundary + 1, entries: log.entries }
}

/// The changes that append entries one by one, so that a crash partway through leaves a shorter but
/// well-formed log.
pub open spec fn append_plan<C>(entries: Seq<EntryView<C>>) -> Seq<FileWriteView<C>> {
    Seq::new(entries.len(), |i: int| FileWriteView::Append { entry: entries[i] })
}

/// The changes that install a snapshot, after which the log is `log`.
///
/// The record goes down first because the decision it carries cannot be recomputed later. Once the
/// snapshot replaces the prefix, the local term at the boundary is gone, and a retained suffix looks
/// exactly like one that a conflict had already invalidated.
pub open spec fn install_plan<C>(
    snapshot: SnapshotView,
    disposition: SuffixDisposition,
    log: LogView<C>,
) -> Seq<FileWriteView<C>> {
    seq![
        FileWriteView::Intent { intent: intent_for(snapshot, disposition) },
        FileWriteView::Snapshot { snapshot },
        rewrite_of(log),
        FileWriteView::ClearIntent,
    ]
}

/// The in-memory side of storage in files: reads come from memory, and a change says what to write.
///
/// The term, the vote, and a truncation are taken into memory at once: trying again after a failed
/// write sets the same values. An entry is taken in once its write is durable, and a snapshot once its
/// own write is, since trying again would otherwise add the entry twice.
pub struct FileCache<Cmd> {
    current_term: Term,
    voted_for: Option<NodeId>,
    snapshot: Option<Snapshot>,
    log: Log<Cmd>,
}

impl<Cmd: View> View for FileCache<Cmd> {
    type V = StoredView<Cmd::V>;

    closed spec fn view(&self) -> StoredView<Cmd::V> {
        StoredView {
            term: self.current_term,
            voted_for: self.voted_for,
            snapshot: storage::snapshot_view(self.snapshot),
            log: self.log@,
        }
    }
}

impl<Cmd: Clone + View> FileCache<Cmd> {
    /// There is an index for every entry and one more, and copies of commands stand for the same
    /// command.
    pub open spec fn wf(self) -> bool {
        &&& self@.log.last_index() < u64::MAX
        &&& log::clone_keeps_view::<Cmd>()
    }

    /// Puts the state together from the files. Also says what to write in order to finish, or roll
    /// back, a snapshot install that a crash interrupted: recovery then runs exactly once, and a
    /// later crash cannot replay a discard over entries appended after this call.
    pub fn open(files: Files<Cmd>) -> (opened: (Self, Vec<FileWrite<Cmd>>))
        requires
            log::clone_keeps_view::<Cmd>(),
            files@.log().last_index() < u64::MAX,
        ensures
            opened.0.wf(),
            opened.0@ == files@.recovered(),
            write_views(opened.1@) == if files.intent is Some {
                seq![rewrite_of(files@.log()), FileWriteView::ClearIntent]
            } else {
                Seq::empty()
            },
    {
        let ghost view = files@;
        let interrupted = files.intent.is_some();
        let log = reconcile_log(&files.snapshot, &files.intent, files.first_index, files.entries);
        let cache = FileCache {
            current_term: files.current_term,
            voted_for: files.voted_for,
            snapshot: files.snapshot,
            log,
        };
        let mut writes: Vec<FileWrite<Cmd>> = Vec::new();
        if interrupted {
            writes.push(cache.rewrite_log());
            writes.push(FileWrite::ClearIntent);
        }
        proof {
            if interrupted {
                assert(write_views(writes@) =~= seq![
                    rewrite_of(view.log()),
                    FileWriteView::ClearIntent,
                ]);
            } else {
                assert(write_views(writes@) =~= Seq::empty());
            }
        }
        (cache, writes)
    }

    /// The full state.
    pub fn load(&self) -> (state: LoadedState<Cmd>)
        requires
            self.wf(),
        ensures
            state.reads(self@),
    {
        let snapshot = match &self.snapshot {
            Some(s) => Some(s.clone()),
            None => None,
        };
        LoadedState {
            current_term: self.current_term,
            voted_for: self.voted_for,
            snapshot,
            entries: log::clone_entries(self.log.entries()),
        }
    }

    /// Whether there is an index for `count` entries more, and one beyond.
    pub fn has_room_for(&self, count: usize) -> (yes: bool)
        requires
            self.wf(),
        ensures
            yes == (self@.log.last_index() + count < u64::MAX),
    {
        (count as u64) < u64::MAX - self.log.last_index().value
    }

    /// The change that writes the whole log anew.
    ///
    /// The log file then always leads with a header. Without the first index it records, a reload
    /// could not tell where a surviving file's entries sit relative to the snapshot boundary, and
    /// so could not detect a file left behind by a crash mid-install.
    fn rewrite_log(&self) -> (write: FileWrite<Cmd>)
        requires
            self.wf(),
        ensures
            write@ == rewrite_of(self@.log),
    {
        FileWrite::Rewrite {
            first_index: self.log.first_index(),
            entries: log::clone_entries(self.log.entries()),
        }
    }

    /// Records the term and the vote, in a single write rather than two.
    pub fn set_meta(&mut self, term: Term, voted_for: Option<NodeId>) -> (writes: Vec<
        FileWrite<Cmd>,
    >)
        requires
            old(self).wf(),
        ensures
            final(self).wf(),
            final(self)@ == old(self)@.set_meta(term, voted_for),
            write_views(writes@) == seq![FileWriteView::<Cmd::V>::Meta { term, voted_for }],
    {
        self.current_term = term;
        self.voted_for = voted_for;
        let mut writes: Vec<FileWrite<Cmd>> = Vec::new();
        writes.push(FileWrite::Meta { term, voted_for });
        assert(write_views(writes@) =~= seq![FileWriteView::<Cmd::V>::Meta { term, voted_for }]);
        writes
    }

    /// Removes every entry at or after `index`.
    pub fn truncate_from(&mut self, index: LogIndex) -> (writes: Vec<FileWrite<Cmd>>)
        requires
            old(self).wf(),
        ensures
            final(self).wf(),
            final(self)@ == old(self)@.truncate_from(index),
            write_views(writes@) == seq![rewrite_of(final(self)@.log)],
    {
        self.log.truncate_from(index);
        let mut writes: Vec<FileWrite<Cmd>> = Vec::new();
        writes.push(self.rewrite_log());
        assert(write_views(writes@) =~= seq![rewrite_of(self@.log)]);
        writes
    }

    /// What to write in order to append entries, each with a write of its own. Once a write is
    /// durable, its entry goes to `appended`.
    pub fn append(&self, entries: &[LogEntry<Cmd>]) -> (writes: Vec<FileWrite<Cmd>>)
        requires
            self.wf(),
        ensures
            write_views(writes@) == append_plan(log::entry_views(entries@)),
    {
        let mut writes: Vec<FileWrite<Cmd>> = Vec::new();
        let mut i: usize = 0;
        while i < entries.len()
            invariant
                log::clone_keeps_view::<Cmd>(),
                i <= entries.len(),
                writes.len() == i,
                forall|k: int|
                    0 <= k < i ==> (#[trigger] writes[k])@ == (FileWriteView::Append {
                        entry: entries[k]@,
                    }),
            decreases entries.len() - i,
        {
            writes.push(FileWrite::Append { entry: entries[i].clone() });
            i = i + 1;
        }
        assert(write_views(writes@) =~= append_plan(log::entry_views(entries@)));
        writes
    }

    /// Takes in an entry that has been appended to the log file.
    pub fn appended(&mut self, entry: &LogEntry<Cmd>)
        requires
            old(self).wf(),
            old(self)@.log.last_index() + 1 < u64::MAX,
        ensures
            final(self).wf(),
            final(self)@ == old(self)@.append(seq![entry@]),
    {
        let ghost before = self@;
        self.log.append(entry.clone());
        assert(self@.log =~= before.log.extend(seq![entry@]));
    }

    /// What to write first in order to install a snapshot, as one recoverable transaction: record the
    /// intent, make the snapshot durable, bring the log into the state the intent names, then clear
    /// the record. A crash at any point leaves `open` able to finish or roll back. Once these writes
    /// are durable, `install_snapshot` says what follows.
    pub fn begin_install(&self, snapshot: &Snapshot, disposition: SuffixDisposition) -> (writes: Vec<
        FileWrite<Cmd>,
    >)
        ensures
            write_views(writes@) == install_plan(
                snapshot@,
                disposition,
                self@.install_snapshot(snapshot@, disposition).log,
            ).take(2),
    {
        let mut writes: Vec<FileWrite<Cmd>> = Vec::new();
        writes.push(FileWrite::Intent { intent: InstallIntent::new(snapshot, disposition) });
        writes.push(FileWrite::Snapshot { snapshot: snapshot.clone() });
        assert(write_views(writes@) =~= install_plan(
            snapshot@,
            disposition,
            self@.install_snapshot(snapshot@, disposition).log,
        ).take(2));
        writes
    }

    /// Takes in a snapshot that has become durable, and says what to write in order to bring the log
    /// file in line with it and finish the install.
    pub fn install_snapshot(&mut self, snapshot: &Snapshot, disposition: SuffixDisposition) -> (writes:
        Vec<FileWrite<Cmd>>)
        requires
            old(self).wf(),
            snapshot@.last_index < u64::MAX,
        ensures
            final(self).wf(),
            final(self)@ == old(self)@.install_snapshot(snapshot@, disposition),
            write_views(writes@) == install_plan(
                snapshot@,
                disposition,
                final(self)@.log,
            ).skip(2),
    {
        self.snapshot = Some(snapshot.clone());
        match disposition {
            SuffixDisposition::Retain => self.log.compact_through(
                snapshot.meta.last_index,
                snapshot.meta.last_term,
            ),
            SuffixDisposition::Discard => self.log.reset_to_snapshot(
                snapshot.meta.last_index,
                snapshot.meta.last_term,
            ),
        }
        let mut writes: Vec<FileWrite<Cmd>> = Vec::new();
        writes.push(self.rewrite_log());
        writes.push(FileWrite::ClearIntent);
        assert(write_views(writes@) =~= install_plan(snapshot@, disposition, self@.log).skip(2));
        writes
    }
}

/// Rebuilds the in-memory log from the files on disk, resolving an interrupted install.
///
/// Without the intent record a discarded suffix is indistinguishable from a retained one, because
/// the entry whose term settled the question is inside the compacted prefix and no longer readable.
pub fn reconcile_log<Cmd: View>(
    snapshot: &Option<Snapshot>,
    intent: &Option<InstallIntent>,
    claimed_first_index: LogIndex,
    entries: Vec<LogEntry<Cmd>>,
) -> (log: Log<Cmd>)
    requires
        (FilesView {
            term: Term { value: 0 },
            voted_for: None,
            snapshot: storage::snapshot_view(*snapshot),
            first_index: claimed_first_index.value as nat,
            entries: log::entry_views(entries@),
            intent: *intent,
        }).log().last_index() <= u64::MAX,
    ensures
        log@ == (FilesView {
            term: Term { value: 0 },
            voted_for: None,
            snapshot: storage::snapshot_view(*snapshot),
            first_index: claimed_first_index.value as nat,
            entries: log::entry_views(entries@),
            intent: *intent,
        }).log(),
{
    let snap = match snapshot {
        Some(snap) => snap,
        None => {
            return Log::from_entries(entries);
        },
    };
    let boundary = snap.meta.last_index;
    let discards_suffix = match intent {
        Some(intent) => intent.covers(snap) && intent.disposition == SuffixDisposition::Discard,
        None => false,
    };
    if discards_suffix {
        let none: Vec<LogEntry<Cmd>> = Vec::new();
        assert(log::entry_views(none@) =~= Seq::empty());
        return Log::from_snapshot_and_suffix(boundary, snap.meta.last_term, none);
    }
    // Entries at or below the boundary belong to a log file written before the snapshot landed.
    // Their positions come from the header, so a compacted file is read at its true indexes rather
    // than from 1.
    let mut entries = entries;
    let ghost all = entries@;
    let surviving = if claimed_first_index.value > boundary.value {
        entries
    } else {
        let covered: u64 = boundary.value - claimed_first_index.value;
        if covered < entries.len() as u64 {
            entries.split_off(covered as usize + 1)
        } else {
            Vec::new()
        }
    };
    proof {
        let files = FilesView {
            term: Term { value: 0 },
            voted_for: None,
            snapshot: storage::snapshot_view(*snapshot),
            first_index: claimed_first_index.value as nat,
            entries: log::entry_views(all),
            intent: *intent,
        };
        assert(log::entry_views(surviving@) =~= files.entries_above(boundary.value as nat));
    }
    Log::from_snapshot_and_suffix(boundary, snap.meta.last_term, surviving)
}

/// Files that hold a state are read back as that state.
pub proof fn law_files_read_back<C>(files: FilesView<C>, stored: StoredView<C>)
    requires
        files.hold(stored),
        stored.consistent(),
    ensures
        files.recovered() == stored,
{
    assert(files.recovered().log.entries =~= stored.log.entries);
    assert(files.recovered().log =~= stored.log);
}

/// Every change, carried out, makes the files hold the new state.
pub proof fn law_changes_are_durable<C>(
    files: FilesView<C>,
    stored: StoredView<C>,
    term: Term,
    voted_for: Option<NodeId>,
    index: LogIndex,
    entries: Seq<EntryView<C>>,
    snapshot: SnapshotView,
    disposition: SuffixDisposition,
)
    requires
        files.hold(stored),
    ensures
        apply_all(files, seq![FileWriteView::Meta { term, voted_for }]).hold(
            stored.set_meta(term, voted_for),
        ),
        apply_all(files, seq![rewrite_of(stored.truncate_from(index).log)]).hold(
            stored.truncate_from(index),
        ),
        apply_all(files, append_plan(entries)).hold(stored.append(entries)),
        apply_all(
            files,
            install_plan(
                snapshot,
                disposition,
                stored.install_snapshot(snapshot, disposition).log,
            ),
        ).hold(stored.install_snapshot(snapshot, disposition)),
{
    lemma_apply_one(files, FileWriteView::Meta { term, voted_for });
    lemma_apply_one(files, rewrite_of(stored.truncate_from(index).log));
    law_interrupted_append(files, stored, entries, entries.len());
    assert(append_plan(entries).take(entries.len() as int) =~= append_plan(entries));
    assert(entries.take(entries.len() as int) =~= entries);
    let log = stored.install_snapshot(snapshot, disposition).log;
    lemma_install_steps(files, snapshot, disposition, log);
    let plan = install_plan(snapshot, disposition, log);
    assert(plan.take(4) =~= plan);
}

proof fn lemma_apply_one<C>(files: FilesView<C>, write: FileWriteView<C>)
    ensures
        apply_all(files, seq![write]) == write.apply(files),
{
    reveal_with_fuel(apply_all, 2);
    assert(seq![write].drop_last() =~= Seq::empty());
}

proof fn lemma_install_steps<C>(
    files: FilesView<C>,
    snapshot: SnapshotView,
    disposition: SuffixDisposition,
    log: LogView<C>,
)
    ensures
        ({
            let plan = install_plan(snapshot, disposition, log);
            let intent = Some(intent_for(snapshot, disposition));
            let s1 = FilesView { intent, ..files };
            let s2 = FilesView { snapshot: Some(snapshot), ..s1 };
            let s3 = FilesView { first_index: log.boundary + 1, entries: log.entries, ..s2 };
            &&& apply_all(files, plan.take(0)) == files
            &&& apply_all(files, plan.take(1)) == s1
            &&& apply_all(files, plan.take(2)) == s2
            &&& apply_all(files, plan.take(3)) == s3
            &&& apply_all(files, plan.take(4)) == (FilesView { intent: None, ..s3 })
        }),
{
    let plan = install_plan(snapshot, disposition, log);
    assert(plan.take(1).drop_last() =~= plan.take(0));
    assert(plan.take(2).drop_last() =~= plan.take(1));
    assert(plan.take(3).drop_last() =~= plan.take(2));
    assert(plan.take(4).drop_last() =~= plan.take(3));
}

/// A crash in the middle of an append leaves the entries that were already written, and nothing
/// else.
pub proof fn law_interrupted_append<C>(
    files: FilesView<C>,
    stored: StoredView<C>,
    entries: Seq<EntryView<C>>,
    done: nat,
)
    requires
        files.hold(stored),
        done <= entries.len(),
    ensures
        apply_all(files, append_plan(entries).take(done as int)).hold(
            stored.append(entries.take(done as int)),
        ),
    decreases done,
{
    let plan = append_plan(entries);
    if done == 0 {
        assert(plan.take(0).len() == 0);
        assert(stored.log.entries + entries.take(0) =~= stored.log.entries);
    } else {
        law_interrupted_append(files, stored, entries, (done - 1) as nat);
        assert(plan.take(done as int).drop_last() =~= plan.take(done - 1));
        assert(plan.take(done as int).last() == plan[done - 1]);
        assert(stored.log.entries + entries.take(done as int) =~= (stored.log.entries + entries.take(
            done - 1,
        )).push(entries[done - 1]));
    }
}

/// A crash at any point of a snapshot install leaves files that are read back as the state before it
/// until the snapshot itself is durable, and from then on as the state after it.
///
/// Two cases are left out. A discard at the very boundary, index and term, that is already stored has
/// a record that covers the stored snapshot, so that entries above it are discarded from the first
/// write on. A snapshot that retains the log but lies below its boundary, or names another term for
/// it, leaves a log behind that does not start where the snapshot ends.
pub proof fn law_interrupted_install_is_all_or_nothing<C>(
    files: FilesView<C>,
    stored: StoredView<C>,
    snapshot: SnapshotView,
    disposition: SuffixDisposition,
    done: nat,
)
    requires
        files.hold(stored),
        stored.consistent(),
        snapshot.last_index <= u64::MAX,
        snapshot.last_term <= u64::MAX,
        done <= 4,
        disposition == SuffixDisposition::Retain && done >= 2 ==> snapshot.last_index
            > stored.log.boundary || (snapshot.last_index == stored.log.boundary
            && snapshot.last_term == stored.log.boundary_term),
        disposition == SuffixDisposition::Discard && done == 1 ==> (stored.snapshot matches Some(s)
            ==> (covers(intent_for(snapshot, disposition), s) ==> stored.log.entries.len() == 0)),
    ensures
        ({
            let after = stored.install_snapshot(snapshot, disposition);
            let left = apply_all(
                files,
                install_plan(snapshot, disposition, after.log).take(done as int),
            );
            &&& done < 2 ==> left.recovered() == stored
            &&& done >= 2 ==> left.recovered() == after
        }),
{
    let after = stored.install_snapshot(snapshot, disposition);
    let plan = install_plan(snapshot, disposition, after.log);
    let left = apply_all(files, plan.take(done as int));
    lemma_install_steps(files, snapshot, disposition, after.log);
    law_files_read_back(files, stored);
    if done == 1 {
        assert(left.recovered().log.entries =~= stored.log.entries);
        assert(left.recovered() =~= stored);
    } else if done >= 2 {
        assert(left.recovered().log.entries =~= after.log.entries);
        assert(left.recovered().log =~= after.log);
        assert(left.recovered() =~= after);
    }
}

/// What `open` writes makes the files hold the state it found, with nothing left to finish.
pub proof fn law_recovery_completes<C>(files: FilesView<C>)
    ensures
        apply_all(files, seq![rewrite_of(files.log()), FileWriteView::ClearIntent]).hold(
            files.recovered(),
        ),
{
    let plan = seq![rewrite_of(files.log()), FileWriteView::<C>::ClearIntent];
    reveal_with_fuel(apply_all, 3);
    assert(plan.drop_last() =~= seq![rewrite_of(files.log())]);
    assert(plan.drop_last().drop_last() =~= Seq::empty());
}

/// Files are read as the term, the vote, and the snapshot that they hold, and as a log that starts
/// where the snapshot ends. An entry of the log file keeps its index, which the header gives; those that
/// the snapshot covers are left out. Only where the record of an install that discards the log is still
/// there, and the snapshot that it names is, does no entry count.
pub proof fn law_files_stand_for_their_contents<C>(files: FilesView<C>, index: nat)
    requires
        files.snapshot matches Some(snapshot) ==> 1 <= files.first_index <= snapshot.last_index + 1,
        files.snapshot is None ==> files.first_index == 1,
    ensures
        ({
            let stored = files.recovered();
            let boundary = match files.snapshot {
                Some(snapshot) => snapshot.last_index,
                None => 0,
            };
            let discarded = files.snapshot matches Some(snapshot) && (
            files.intent matches Some(intent) && intent.disposition == SuffixDisposition::Discard
                && intent.last_index.value == snapshot.last_index && intent.last_term.value
                == snapshot.last_term);
            &&& stored.term == files.term
            &&& stored.voted_for == files.voted_for
            &&& stored.snapshot == files.snapshot
            &&& stored.log.boundary == boundary
            &&& files.snapshot matches Some(snapshot) ==> stored.log.boundary_term
                == snapshot.last_term
            &&& discarded ==> stored.log.entries.len() == 0
            &&& !discarded ==> {
                let last = files.first_index + files.entries.len() - 1;
                &&& stored.log.entries.len() == if last > boundary {
                    last - boundary
                } else {
                    0
                }
                &&& boundary < index <= last ==> stored.log.entries[index - boundary - 1]
                    == files.entries[index - files.first_index]
            }
        }),
{
}

/// A snapshot is installed in four writes: the record of what is to be done, the snapshot, the log as
/// it is then to be, and the removal of the record. Entries are appended one write each, in order, and
/// the log is rewritten with the index of its first entry.
pub proof fn law_writes_come_in_order<C>(
    snapshot: SnapshotView,
    disposition: SuffixDisposition,
    log: LogView<C>,
    entries: Seq<EntryView<C>>,
)
    requires
        snapshot.last_index <= u64::MAX,
        snapshot.last_term <= u64::MAX,
    ensures
        ({
            let plan = install_plan(snapshot, disposition, log);
            &&& plan.len() == 4
            &&& plan[0] matches FileWriteView::Intent { intent } && intent.last_index.value
                == snapshot.last_index && intent.last_term.value == snapshot.last_term
                && intent.disposition == disposition
            &&& plan[1] == (FileWriteView::<C>::Snapshot { snapshot })
            &&& plan[2] == (FileWriteView::<C>::Rewrite {
                first_index: log.boundary + 1,
                entries: log.entries,
            })
            &&& plan[3] == FileWriteView::<C>::ClearIntent
        }),
        append_plan(entries).len() == entries.len(),
        forall|i: int|
            0 <= i < entries.len() ==> #[trigger] append_plan(entries)[i] == (
            FileWriteView::<C>::Append { entry: entries[i] }),
        rewrite_of(log) == (FileWriteView::<C>::Rewrite {
            first_index: log.boundary + 1,
            entries: log.entries,
        }),
{
}

/// Each write changes what it is for in the files, and nothing else.
pub proof fn law_file_writes_change_what_they_are_for<C>(
    files: FilesView<C>,
    write: FileWriteView<C>,
)
    ensures
        ({
            let after = write.apply(files);
            match write {
                FileWriteView::Meta { term, voted_for } => after == (FilesView {
                    term,
                    voted_for,
                    ..files
                }),
                FileWriteView::Snapshot { snapshot } => after == (FilesView {
                    snapshot: Some(snapshot),
                    ..files
                }),
                FileWriteView::Intent { intent } => after == (FilesView {
                    intent: Some(intent),
                    ..files
                }),
                FileWriteView::Append { entry } => after == (FilesView {
                    entries: files.entries.push(entry),
                    ..files
                }),
                FileWriteView::Rewrite { first_index, entries } => after == (FilesView {
                    first_index,
                    entries,
                    ..files
                }),
                FileWriteView::ClearIntent => after == (FilesView { intent: None, ..files }),
            }
        }),
{
}

} // verus!
