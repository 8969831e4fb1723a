//! The replicated log.
use vstd::prelude::*;

use super::config::ClusterConfig;
use super::config::Members;
use super::primitives::LogIndex;
use super::primitives::Term;

verus! {

/// Whether cloning a value keeps what the value stands for.
pub open spec fn clone_keeps_view<T: Clone + View>() -> bool {
    forall|a: T, b: T| #[trigger] cloned(a, b) ==> a@ == b@
}

/// The data carried by a log entry.
#[derive(Debug, PartialEq, Eq)]
pub enum LogPayload<Cmd> {
    /// Appended by a new leader at the start of its term (section 8). Committing this
    /// current-term entry commits every preceding entry through the Log Matching Property, which
    /// is what lets a leader serve reads without committing an entry from an earlier term
    /// directly.
    NoOp,
    /// An application command, opaque to the consensus layer.
    Command(Cmd),
    /// Single-server membership change (dissertation section 4.1). Takes effect as soon as it is
    /// appended, not when it commits.
    ConfigChange(ClusterConfig),
}

/// What a log payload stands for.
#[verifier::ext_equal]
pub enum PayloadView<C> {
    NoOp,
    Command(C),
    ConfigChange(Members),
}

impl<Cmd: View> View for LogPayload<Cmd> {
    type V = PayloadView<Cmd::V>;

    open spec fn view(&self) -> PayloadView<Cmd::V> {
        match *self {
            LogPayload::NoOp => PayloadView::NoOp,
            LogPayload::Command(command) => PayloadView::Command(command@),
            LogPayload::ConfigChange(config) => PayloadView::ConfigChange(config@),
        }
    }
}

impl<Cmd: Clone + View> Clone for LogPayload<Cmd> {
    fn clone(&self) -> (copy: Self)
        ensures
            clone_keeps_view::<Cmd>() ==> copy@ == self@,
    {
        match self {
            LogPayload::NoOp => LogPayload::NoOp,
            LogPayload::Command(command) => {
                let copy = command.clone();
                assert(cloned(*command, copy));
                LogPayload::Command(copy)
            },
            LogPayload::ConfigChange(config) => LogPayload::ConfigChange(config.clone()),
        }
    }
}

impl<Cmd> LogPayload<Cmd> {
    /// Whether this is a membership change.
    pub fn is_config_change(&self) -> (yes: bool)
        ensures
            yes == (*self is ConfigChange),
    {
        match self {
            LogPayload::ConfigChange(_) => true,
            _ => false,
        }
    }
}

/// A single entry in the replicated log.
#[derive(Debug, PartialEq, Eq)]
pub struct LogEntry<Cmd> {
    /// Term of the leader that created the entry. Half of the identity used by the log matching
    /// check.
    pub term: Term,
    pub payload: LogPayload<Cmd>,
}

/// What a log entry stands for.
#[verifier::ext_equal]
pub struct EntryView<C> {
    pub term: nat,
    pub payload: PayloadView<C>,
}

impl<Cmd: View> View for LogEntry<Cmd> {
    type V = EntryView<Cmd::V>;

    open spec fn view(&self) -> EntryView<Cmd::V> {
        EntryView { term: self.term.value as nat, payload: self.payload@ }
    }
}

impl<Cmd: Clone + View> Clone for LogEntry<Cmd> {
    fn clone(&self) -> (copy: Self)
        ensures
            clone_keeps_view::<Cmd>() ==> copy@ == self@,
    {
        LogEntry { term: self.term, payload: self.payload.clone() }
    }
}

/// What a sequence of log entries stands for.
pub open spec fn entry_views<Cmd: View>(entries: Seq<LogEntry<Cmd>>) -> Seq<EntryView<Cmd::V>> {
    Seq::new(entries.len(), |i: int| entries[i]@)
}

/// A copy of a run of entries.
pub fn clone_entries<Cmd: Clone + View>(entries: &[LogEntry<Cmd>]) -> (copy: Vec<LogEntry<Cmd>>)
    requires
        clone_keeps_view::<Cmd>(),
    ensures
        entry_views(copy@) == entry_views(entries@),
{
    let mut copy: Vec<LogEntry<Cmd>> = Vec::new();
    let mut i: usize = 0;
    while i < entries.len()
        invariant
            clone_keeps_view::<Cmd>(),
            i <= entries.len(),
            copy.len() == i,
            forall|k: int| 0 <= k < i ==> (#[trigger] copy[k])@ == entries[k]@,
        decreases entries.len() - i,
    {
        copy.push(entries[i].clone());
        i = i + 1;
    }
    assert(entry_views(copy@) =~= entry_views(entries@));
    copy
}

/// Whether a run of entries holds a membership change.
pub open spec fn has_config_change<C>(entries: Seq<EntryView<C>>) -> bool {
    exists|i: int| 0 <= i < entries.len() && (#[trigger] entries[i]).payload is ConfigChange
}

/// The newest membership change in a run of entries.
pub open spec fn latest_config<C>(entries: Seq<EntryView<C>>) -> Option<Members>
    decreases entries.len(),
{
    if entries.len() == 0 {
        None
    } else {
        match entries.last().payload {
            PayloadView::ConfigChange(members) => Some(members),
            _ => latest_config(entries.drop_last()),
        }
    }
}

/// Whether `entries` holds a membership change.
pub fn contains_config_change<Cmd: View>(entries: &[LogEntry<Cmd>]) -> (found: bool)
    ensures
        found == has_config_change(entry_views(entries@)),
{
    let ghost views = entry_views(entries@);
    let mut i: usize = 0;
    while i < entries.len()
        invariant
            i <= entries.len(),
            views == entry_views(entries@),
            forall|k: int| 0 <= k < i ==> !((#[trigger] views[k]).payload is ConfigChange),
        decreases entries.len() - i,
    {
        if entries[i].payload.is_config_change() {
            assert(views[i as int].payload is ConfigChange);
            return true;
        }
        i = i + 1;
    }
    false
}

/// The newest membership change in `entries`.
pub fn find_latest_config<Cmd: View>(entries: &[LogEntry<Cmd>]) -> (config: Option<ClusterConfig>)
    ensures
        config is Some <==> latest_config(entry_views(entries@)) is Some,
        config matches Some(c) ==> latest_config(entry_views(entries@)) == Some(c@),
{
    let ghost views = entry_views(entries@);
    let mut i: usize = entries.len();
    proof {
        assert(views.take(i as int) =~= views);
    }
    while i > 0
        invariant
            i <= entries.len(),
            views == entry_views(entries@),
            latest_config(views) == latest_config(views.take(i as int)),
        decreases i,
    {
        i = i - 1;
        proof {
            assert(views.take(i + 1).drop_last() =~= views.take(i as int));
            assert(views.take(i + 1).last() == views[i as int]);
        }
        match &entries[i].payload {
            LogPayload::ConfigChange(config) => {
                return Some(config.clone());
            },
            _ => {},
        }
    }
    None
}

/// What `Log::merge` did to the log.
///
/// Callers need this for two reasons. A truncation may have removed the entry carrying the active
/// `ClusterConfig`, which forces a rescan of the log for the latest surviving `ConfigChange`. It
/// also tells durable storage precisely which range changed, so storage never has to re-derive a
/// diff.
#[derive(Clone, Copy, Debug, PartialEq, Eq, Structural)]
pub enum MergeOutcome {
    /// No conflict. New entries, if any, went after the existing suffix.
    Appended,
    /// An entry at index `from` held a different term than the incoming one. The log was
    /// truncated at `from` and the incoming suffix took its place.
    Truncated { from: LogIndex },
}

/// The result of asking for the term at a given index.
///
/// The three cases are distinguished rather than collapsed into an `Option` because callers
/// respond differently to each: a compacted index means the follower must be caught up with a
/// snapshot, while an index beyond the end means the leader must back up `next_index`.
#[derive(Clone, Copy, Debug, PartialEq, Eq, Structural)]
pub enum TermLookup {
    /// A retained entry, or the snapshot boundary, or the index 0 sentinel.
    Known(Term),
    /// Below the snapshot boundary. Compaction discarded the term.
    Compacted,
    /// Past the last entry in the log.
    BeyondEnd,
}

/// What happens to the local entries above a snapshot's boundary when the snapshot is installed.
///
/// The decision needs the term of the local entry at the boundary, which is gone once the log has
/// been compacted, so it is made once and then passed along.
#[derive(Clone, Copy, Debug, PartialEq, Eq, Structural)]
pub enum SuffixDisposition {
    /// The entries above the boundary agree with the snapshot and survive.
    Retain,
    /// The local log conflicts with the snapshot, or ends before it. All of it goes.
    Discard,
}

/// What a log stands for: the entries after the snapshot boundary, and the boundary itself.
#[verifier::ext_equal]
pub struct LogView<C> {
    pub boundary: nat,
    pub boundary_term: nat,
    pub entries: Seq<EntryView<C>>,
}

impl<C> LogView<C> {
    /// A log that was never written to.
    pub open spec fn empty() -> Self {
        LogView { boundary: 0, boundary_term: 0, entries: Seq::empty() }
    }

    /// Index of the newest entry, retained or compacted.
    pub open spec fn last_index(self) -> nat {
        self.boundary + self.entries.len()
    }

    /// Term of the newest entry, retained or compacted.
    pub open spec fn last_term(self) -> nat {
        if self.entries.len() == 0 {
            self.boundary_term
        } else {
            self.entries.last().term
        }
    }

    /// Whether the entry at `index` is retained.
    pub open spec fn retains(self, index: int) -> bool {
        self.boundary < index <= self.last_index()
    }

    /// The retained entry at `index`.
    pub open spec fn at(self, index: int) -> EntryView<C>
        recommends
            self.retains(index),
    {
        self.entries[index - self.boundary - 1]
    }

    /// Whether the term at `index` is known.
    pub open spec fn knows(self, index: int) -> bool {
        self.boundary <= index <= self.last_index()
    }

    /// The term at `index`.
    pub open spec fn term_of(self, index: int) -> nat
        recommends
            self.knows(index),
    {
        if index == self.boundary {
            self.boundary_term
        } else {
            self.at(index).term
        }
    }

    /// The Log Matching consistency check of section 5.3.
    pub open spec fn matches(self, index: int, term: nat) -> bool {
        index < self.boundary || (self.knows(index) && self.term_of(index) == term)
    }

    /// The retained entries from `index` on.
    pub open spec fn suffix_from(self, index: int) -> Seq<EntryView<C>> {
        if index <= self.boundary {
            self.entries
        } else if index <= self.last_index() {
            self.entries.skip(index - self.boundary - 1)
        } else {
            Seq::empty()
        }
    }

    /// The retained entries through `index`.
    pub open spec fn through(self, index: int) -> Seq<EntryView<C>> {
        if index <= self.boundary {
            Seq::empty()
        } else if index <= self.last_index() {
            self.entries.take(index - self.boundary)
        } else {
            self.entries
        }
    }

    /// The log with one entry more.
    pub open spec fn push(self, entry: EntryView<C>) -> Self {
        LogView { entries: self.entries.push(entry), ..self }
    }

    /// The log with a run of entries behind it.
    pub open spec fn extend(self, entries: Seq<EntryView<C>>) -> Self {
        LogView { entries: self.entries + entries, ..self }
    }

    /// The log without the entries from `index` on.
    pub open spec fn truncate_from(self, index: int) -> Self {
        if self.retains(index) {
            LogView { entries: self.entries.take(index - self.boundary - 1), ..self }
        } else {
            self
        }
    }

    /// Whether the `k`-th of the entries that follow `prev` is already accounted for: it lies in
    /// the compacted prefix, or the log holds an entry of its term at its index.
    pub open spec fn holds(self, prev: nat, incoming: Seq<EntryView<C>>, k: int) -> bool {
        let index = prev + 1 + k;
        index <= self.boundary || (index <= self.last_index() && self.at(index).term
            == incoming[k].term)
    }

    /// Whether exactly the first `n` of the incoming entries are accounted for.
    pub open spec fn held_prefix(self, prev: nat, incoming: Seq<EntryView<C>>, n: nat) -> bool {
        &&& n <= incoming.len()
        &&& forall|k: int| 0 <= k < n ==> #[trigger] self.holds(prev, incoming, k)
        &&& n < incoming.len() ==> !self.holds(prev, incoming, n as int)
    }

    /// How many of the incoming entries come before the first one that is new to this log.
    pub open spec fn held(self, prev: nat, incoming: Seq<EntryView<C>>) -> nat {
        choose|n: nat| self.held_prefix(prev, incoming, n)
    }

    /// The log after grafting `incoming` onto it behind `prev`: the first incoming entry that is
    /// new to the log, and all that follow it, replace whatever the log held from there on.
    pub open spec fn merge(self, prev: nat, incoming: Seq<EntryView<C>>) -> Self {
        let n = self.held(prev, incoming);
        if n == incoming.len() {
            self
        } else {
            self.truncate_from((prev + 1 + n) as int).extend(incoming.skip(n as int))
        }
    }

    /// The index at which grafting `incoming` overwrites entries, if it does.
    pub open spec fn conflict(self, prev: nat, incoming: Seq<EntryView<C>>) -> Option<nat> {
        let n = self.held(prev, incoming);
        if n < incoming.len() && prev + 1 + n <= self.last_index() {
            Some(prev + 1 + n)
        } else {
            None
        }
    }

    /// The log without the entries through `index`, which `term` then stands for.
    pub open spec fn compact_through(self, index: nat, term: nat) -> Self {
        if index <= self.boundary {
            self
        } else {
            LogView {
                boundary: index,
                boundary_term: term,
                entries: if index <= self.last_index() {
                    self.entries.skip(index - self.boundary)
                } else {
                    Seq::empty()
                },
            }
        }
    }

    /// A log without entries behind the boundary at `index`.
    pub open spec fn reset(index: nat, term: nat) -> Self {
        LogView { boundary: index, boundary_term: term, entries: Seq::empty() }
    }

    /// The log after a snapshot with this boundary is installed.
    pub open spec fn install(self, index: nat, term: nat, disposition: SuffixDisposition) -> Self {
        match disposition {
            SuffixDisposition::Retain => self.compact_through(index, term),
            SuffixDisposition::Discard => LogView::reset(index, term),
        }
    }
}

/// The number of accounted-for entries is determined by its description.
pub proof fn lemma_held_unique<C>(log: LogView<C>, prev: nat, incoming: Seq<EntryView<C>>, n: nat)
    requires
        log.held_prefix(prev, incoming, n),
    ensures
        log.held(prev, incoming) == n,
{
    let m = log.held(prev, incoming);
    assert(log.held_prefix(prev, incoming, m));
    if m < n {
        assert(log.holds(prev, incoming, m as int));
    }
    if n < m {
        assert(log.holds(prev, incoming, n as int));
    }
}

/// There always is a number of accounted-for entries.
pub proof fn lemma_held<C>(log: LogView<C>, prev: nat, incoming: Seq<EntryView<C>>)
    ensures
        log.held_prefix(prev, incoming, log.held(prev, incoming)),
{
    let n = lemma_held_from(log, prev, incoming, 0);
    lemma_held_unique(log, prev, incoming, n);
}

proof fn lemma_held_from<C>(log: LogView<C>, prev: nat, incoming: Seq<EntryView<C>>, k: nat) -> (n:
    nat)
    requires
        k <= incoming.len(),
        forall|j: int| 0 <= j < k ==> #[trigger] log.holds(prev, incoming, j),
    ensures
        log.held_prefix(prev, incoming, n),
    decreases incoming.len() - k,
{
    if k == incoming.len() || !log.holds(prev, incoming, k as int) {
        k
    } else {
        lemma_held_from(log, prev, incoming, k + 1)
    }
}

/// The one-based replicated log.
///
/// All index arithmetic lives here so no caller converts between a `LogIndex` and a `Vec` offset.
/// The distinction matters after compaction: `entries[0]` then holds index
/// `snapshot_last_index + 1` rather than index 1.
#[derive(Debug, PartialEq, Eq)]
pub struct Log<Cmd> {
    /// Index of the newest entry folded into a snapshot and dropped. Zero before any compaction,
    /// which coincides with the index 0 sentinel and so needs no special case anywhere in the
    /// arithmetic below.
    snapshot_last_index: LogIndex,
    /// Term of the entry at `snapshot_last_index`, retained for log matching and for the
    /// up-to-date comparison after the log is fully compacted.
    snapshot_last_term: Term,
    /// Entries after the boundary, in index order.
    entries: Vec<LogEntry<Cmd>>,
}

impl<Cmd: View> View for Log<Cmd> {
    type V = LogView<Cmd::V>;

    closed spec fn view(&self) -> LogView<Cmd::V> {
        LogView {
            boundary: self.snapshot_last_index.value as nat,
            boundary_term: self.snapshot_last_term.value as nat,
            entries: entry_views(self.entries@),
        }
    }
}

impl<Cmd: View> Log<Cmd> {
    /// Every entry of a log has an index that fits in a `LogIndex`.
    pub open spec fn wf(self) -> bool {
        self@.last_index() <= u64::MAX
    }

    /// An empty, uncompacted log.
    pub fn new() -> (log: Self)
        ensures
            log.wf(),
            log@ == LogView::<Cmd::V>::empty(),
    {
        let log = Log {
            snapshot_last_index: LogIndex { value: 0 },
            snapshot_last_term: Term { value: 0 },
            entries: Vec::new(),
        };
        assert(log@ =~= LogView::<Cmd::V>::empty());
        log
    }

    /// An uncompacted log whose first entry is index 1.
    pub fn from_entries(entries: Vec<LogEntry<Cmd>>) -> (log: Self)
        ensures
            log.wf(),
            log@ == (LogView { entries: entry_views(entries@), ..LogView::<Cmd::V>::empty() }),
    {
        assert(entries.len() == entries@.len());
        Log {
            snapshot_last_index: LogIndex { value: 0 },
            snapshot_last_term: Term { value: 0 },
            entries,
        }
    }

    /// Reconstructs a compacted log from a persisted snapshot boundary and the surviving suffix,
    /// which the caller guarantees begins at `snapshot_last_index + 1`.
    ///
    /// Intended for storage backends restoring state at startup. A running node reaches a
    /// compacted state through `compact_through` or `reset_to_snapshot`, both of which maintain
    /// the invariant themselves.
    pub fn from_snapshot_and_suffix(
        snapshot_last_index: LogIndex,
        snapshot_last_term: Term,
        entries: Vec<LogEntry<Cmd>>,
    ) -> (log: Self)
        requires
            snapshot_last_index.value + entries.len() <= u64::MAX,
        ensures
            log.wf(),
            log@ == (LogView {
                boundary: snapshot_last_index.value as nat,
                boundary_term: snapshot_last_term.value as nat,
                entries: entry_views(entries@),
            }),
    {
        Log { snapshot_last_index, snapshot_last_term, entries }
    }

    /// Number of retained entries. Excludes anything dropped by compaction, so this is not the
    /// same as `last_index`.
    pub fn len(&self) -> (len: usize)
        ensures
            len == self@.entries.len(),
    {
        self.entries.len()
    }

    /// Whether any entry is retained. A fully compacted log is empty even though its `last_index`
    /// is non-zero.
    pub fn is_empty(&self) -> (empty: bool)
        ensures
            empty == (self@.entries.len() == 0),
    {
        self.entries.len() == 0
    }

    /// The newest retained entry, or `None` when the log is fully compacted.
    pub fn last(&self) -> (entry: Option<&LogEntry<Cmd>>)
        ensures
            entry is None <==> self@.entries.len() == 0,
            entry matches Some(e) ==> e@ == self@.entries.last(),
    {
        if self.entries.len() == 0 {
            None
        } else {
            Some(&self.entries[self.entries.len() - 1])
        }
    }

    /// Iterates the retained entries in index order.
    pub fn iter(&self) -> (iter: std::slice::Iter<'_, LogEntry<Cmd>>)
        ensures
            entry_views(vstd::std_specs::slice::into_iter_elts(iter)) == self@.entries,
    {
        let iter = self.entries.as_slice().iter();
        assert(vstd::std_specs::slice::into_iter_elts(iter) =~= self.entries@);
        iter
    }

    /// The retained entries in index order.
    pub fn entries(&self) -> (entries: &[LogEntry<Cmd>])
        ensures
            entry_views(entries@) == self@.entries,
    {
        self.entries.as_slice()
    }

    /// Translates a `LogIndex` into an offset into `entries`, or `None` when the index was
    /// compacted away or lies past the end.
    fn slot(&self, index: LogIndex) -> (slot: Option<usize>)
        ensures
            slot is Some <==> self@.retains(index.value as int),
            slot matches Some(s) ==> s == index.value - self@.boundary - 1 && s
                < self.entries.len(),
    {
        if index.value <= self.snapshot_last_index.value {
            return None;
        }
        let offset: u64 = index.value - self.snapshot_last_index.value - 1;
        if offset < self.entries.len() as u64 {
            Some(offset as usize)
        } else {
            None
        }
    }

    /// Index of the newest compacted entry. Zero if nothing was compacted.
    pub fn snapshot_last_index(&self) -> (index: LogIndex)
        ensures
            index.value == self@.boundary,
    {
        self.snapshot_last_index
    }

    /// Term of the entry at `snapshot_last_index`.
    pub fn snapshot_last_term(&self) -> (term: Term)
        ensures
            term.value == self@.boundary_term,
    {
        self.snapshot_last_term
    }

    /// Index of the oldest retained entry, or the next index to be appended when nothing is
    /// retained.
    pub fn first_index(&self) -> (index: LogIndex)
        requires
            self@.boundary < u64::MAX,
        ensures
            index.value == self@.boundary + 1,
    {
        self.snapshot_last_index.next()
    }

    /// Index of the newest entry, retained or compacted.
    pub fn last_index(&self) -> (index: LogIndex)
        requires
            self.wf(),
        ensures
            index.value == self@.last_index(),
    {
        self.snapshot_last_index.advance_by(self.entries.len() as u64)
    }

    /// Term of the entry at `last_index`.
    ///
    /// Falls back to the snapshot boundary term when no entry is retained. A fully compacted log
    /// would otherwise report term 0 and lose every election under the up-to-date comparison of
    /// section 5.4.1.
    pub fn last_term(&self) -> (term: Term)
        ensures
            term.value == self@.last_term(),
    {
        if self.entries.len() == 0 {
            self.snapshot_last_term
        } else {
            self.entries[self.entries.len() - 1].term
        }
    }

    /// Term recorded at `index`, or the reason it is unavailable.
    pub fn term_at(&self, index: LogIndex) -> (lookup: TermLookup)
        ensures
            lookup is Compacted <==> index.value < self@.boundary,
            lookup is BeyondEnd <==> index.value > self@.last_index(),
            lookup matches TermLookup::Known(term) ==> term.value == self@.term_of(
                index.value as int,
            ),
    {
        if index.value == self.snapshot_last_index.value {
            return TermLookup::Known(self.snapshot_last_term);
        }
        if index.value < self.snapshot_last_index.value {
            return TermLookup::Compacted;
        }
        match self.slot(index) {
            Some(idx) => TermLookup::Known(self.entries[idx].term),
            None => TermLookup::BeyondEnd,
        }
    }

    /// The entry at `index`, or `None` when it was compacted away or lies past the end.
    pub fn entry(&self, index: LogIndex) -> (entry: Option<&LogEntry<Cmd>>)
        ensures
            entry is Some <==> self@.retains(index.value as int),
            entry matches Some(e) ==> e@ == self@.at(index.value as int),
    {
        match self.slot(index) {
            Some(idx) => Some(&self.entries[idx]),
            None => None,
        }
    }

    /// Retained entries from `index` inclusive to the end. An `index` at or below the snapshot
    /// boundary yields the whole retained log, since nothing older than the boundary can be
    /// served from entries.
    pub fn suffix_from(&self, index: LogIndex) -> (suffix: &[LogEntry<Cmd>])
        ensures
            entry_views(suffix@) == self@.suffix_from(index.value as int),
    {
        if index.value <= self.snapshot_last_index.value {
            return self.entries.as_slice();
        }
        let start: usize = match self.slot(index) {
            Some(idx) => idx,
            None => self.entries.len(),
        };
        let suffix = vstd::slice::slice_subrange(self.entries.as_slice(), start, self.entries.len());
        assert(entry_views(suffix@) =~= self@.suffix_from(index.value as int));
        suffix
    }

    /// Retained entries from the start through `index` inclusive.
    pub fn through(&self, index: LogIndex) -> (prefix: &[LogEntry<Cmd>])
        ensures
            entry_views(prefix@) == self@.through(index.value as int),
    {
        let end: usize = if index.value <= self.snapshot_last_index.value {
            0
        } else {
            match self.slot(index) {
                Some(idx) => idx + 1,
                None => self.entries.len(),
            }
        };
        let prefix = vstd::slice::slice_subrange(self.entries.as_slice(), 0, end);
        assert(entry_views(prefix@) =~= self@.through(index.value as int));
        prefix
    }

    /// Appends one entry and returns its assigned index.
    pub fn append(&mut self, entry: LogEntry<Cmd>) -> (index: LogIndex)
        requires
            old(self)@.last_index() < u64::MAX,
        ensures
            final(self).wf(),
            final(self)@ == old(self)@.push(entry@),
            index.value == final(self)@.last_index(),
    {
        let ghost before = self@;
        self.entries.push(entry);
        assert(self@.entries =~= before.entries.push(entry@));
        self.last_index()
    }

    /// The retained entries, without the boundary.
    pub fn into_entries(self) -> (entries: Vec<LogEntry<Cmd>>)
        ensures
            entry_views(entries@) == self@.entries,
    {
        self.entries
    }

    /// Removes every entry at or after `index`, inclusive of `index` itself.
    ///
    /// No-op when `index` is at or below the snapshot boundary, where the entries are already
    /// gone, or past the end of the log.
    pub fn truncate_from(&mut self, index: LogIndex)
        ensures
            final(self)@ == old(self)@.truncate_from(index.value as int),
            old(self).wf() ==> final(self).wf(),
    {
        let ghost before = self@;
        if let Some(idx) = self.slot(index) {
            self.entries.truncate(idx);
            assert(self@.entries =~= before.entries.take(idx as int));
        }
    }

    /// The Log Matching consistency check of section 5.3: whether this log holds term `prev_term`
    /// at `prev_index`.
    ///
    /// An index below the snapshot boundary always matches. Compaction only covers committed
    /// entries, so that prefix is already known to agree with the leader and there is no term
    /// left to compare against.
    pub fn matches(&self, prev_index: LogIndex, prev_term: Term) -> (matches: bool)
        ensures
            matches == self@.matches(prev_index.value as int, prev_term.value as nat),
    {
        if prev_index.value < self.snapshot_last_index.value {
            return true;
        }
        if prev_index.value == self.snapshot_last_index.value {
            return prev_term.value == self.snapshot_last_term.value;
        }
        match self.slot(prev_index) {
            Some(idx) => self.entries[idx].term.value == prev_term.value,
            None => false,
        }
    }

    /// Grafts `entries` onto the log starting at `prev_index + 1`, following rules 3 to 5 of the
    /// AppendEntries receiver in Figure 2 (section 5.3).
    ///
    /// An incoming entry whose index already holds the same term is a retransmission and is
    /// skipped. An incoming entry whose index holds a different term is a conflict: the log is
    /// truncated there and the rest of the incoming suffix replaces it. Positions at or below the
    /// snapshot boundary are skipped, since a committed prefix cannot conflict.
    pub fn merge(&mut self, prev_index: LogIndex, entries: Vec<LogEntry<Cmd>>) -> (outcome:
        MergeOutcome)
        requires
            old(self).wf(),
            prev_index.value + entries.len() <= u64::MAX,
        ensures
            final(self).wf(),
            final(self)@ == old(self)@.merge(prev_index.value as nat, entry_views(entries@)),
            match old(self)@.conflict(prev_index.value as nat, entry_views(entries@)) {
                Some(from) => outcome matches MergeOutcome::Truncated { from: f } && f.value
                    == from,
                None => outcome == MergeOutcome::Appended,
            },
    {
        let ghost before = self@;
        let ghost prev = prev_index.value as nat;
        let ghost incoming = entry_views(entries@);
        let mut entries = entries;
        let count: usize = entries.len();
        let mut held: usize = 0;
        let mut clash: bool = false;
        // Skip what this log already accounts for.
        while held < count && !clash
            invariant
                self@ == before,
                self.wf(),
                prev == prev_index.value,
                incoming == entry_views(entries@),
                held <= count,
                count == entries.len(),
                prev_index.value + count <= u64::MAX,
                forall|k: int| 0 <= k < held ==> #[trigger] before.holds(prev, incoming, k),
                clash ==> held < count && !before.holds(prev, incoming, held as int),
            decreases (count - held) + if clash { 0int } else { 1int },
        {
            let index = LogIndex { value: prev_index.value + 1 + held as u64 };
            let known = index.value <= self.snapshot_last_index.value || match self.slot(index) {
                Some(idx) => self.entries[idx].term.value == entries[held].term.value,
                None => false,
            };
            if known {
                held = held + 1;
            } else {
                clash = true;
            }
        }
        proof {
            lemma_held_unique(before, prev, incoming, held as nat);
        }
        if held == count {
            return MergeOutcome::Appended;
        }
        let from = LogIndex { value: prev_index.value + 1 + held as u64 };
        let outcome = match self.slot(from) {
            Some(_) => MergeOutcome::Truncated { from },
            None => MergeOutcome::Appended,
        };
        self.truncate_from(from);
        let ghost kept = self@;
        let mut rest = entries.split_off(held);
        let ghost added = rest@;
        let ghost stored = self.entries@;
        self.entries.append(&mut rest);
        proof {
            assert(self.entries@ =~= stored + added);
            assert(entry_views(self.entries@) =~= entry_views(stored) + entry_views(added));
            assert(entry_views(added) =~= incoming.skip(held as int));
            assert(self@ =~= kept.extend(incoming.skip(held as int)));
        }
        outcome
    }

    /// Drops every entry up to and including `index` and records the new boundary. No-op when
    /// `index` is at or below the current boundary.
    ///
    /// The caller must pass the term of the entry at `index`, because that term outlives the
    /// entry itself and is still needed for log matching.
    pub fn compact_through(&mut self, index: LogIndex, term: Term)
        ensures
            old(self).wf() ==> final(self).wf(),
            final(self)@ == old(self)@.compact_through(index.value as nat, term.value as nat),
    {
        let ghost before = self@;
        if index.value <= self.snapshot_last_index.value {
            return ;
        }
        match self.slot(index) {
            Some(idx) => {
                let tail = self.entries.split_off(idx + 1);
                assert(entry_views(tail@) =~= before.entries.skip(idx + 1));
                self.entries = tail;
            },
            None => {
                self.entries.clear();
                assert(entry_views(self.entries@) =~= Seq::<EntryView<Cmd::V>>::empty());
            },
        }
        self.snapshot_last_index = index;
        self.snapshot_last_term = term;
    }

    /// Discards every entry and sets the snapshot boundary directly.
    ///
    /// Used when installing a leader's snapshot whose boundary either extends past the local log
    /// or conflicts with it. Unlike `compact_through`, this makes no assumption that the retained
    /// entries agree with the snapshot.
    pub fn reset_to_snapshot(&mut self, last_index: LogIndex, last_term: Term)
        ensures
            final(self).wf(),
            final(self)@ == LogView::<Cmd::V>::reset(
                last_index.value as nat,
                last_term.value as nat,
            ),
    {
        self.entries.clear();
        assert(entry_views(self.entries@) =~= Seq::<EntryView<Cmd::V>>::empty());
        self.snapshot_last_index = last_index;
        self.snapshot_last_term = last_term;
    }
}

impl<Cmd: Clone + View> Log<Cmd> {
    /// Appends a copy of every entry of `entries`.
    pub fn extend(&mut self, entries: &[LogEntry<Cmd>])
        ensures
            clone_keeps_view::<Cmd>() ==> final(self)@ == old(self)@.extend(entry_views(entries@)),
    {
        let ghost before = self.entries@;
        let ghost log = self@;
        let mut i: usize = 0;
        while i < entries.len()
            invariant
                i <= entries.len(),
                self.snapshot_last_index.value == log.boundary,
                self.snapshot_last_term.value == log.boundary_term,
                self.entries.len() == before.len() + i,
                forall|k: int| 0 <= k < before.len() ==> self.entries[k] == before[k],
                clone_keeps_view::<Cmd>() ==> forall|k: int|
                    before.len() <= k < before.len() + i ==> (#[trigger] self.entries[k])@
                        == entries[k - before.len()]@,
            decreases entries.len() - i,
        {
            self.entries.push(entries[i].clone());
            i = i + 1;
        }
        assert(clone_keeps_view::<Cmd>() ==> self@.entries =~= log.entries + entry_views(entries@));
    }
}

impl<Cmd: View> Default for Log<Cmd> {
    fn default() -> (log: Self)
        ensures
            log.wf(),
            log@ == LogView::<Cmd::V>::empty(),
    {
        Log::new()
    }
}

impl<Cmd: Clone + View> Clone for Log<Cmd> {
    fn clone(&self) -> (copy: Self)
        ensures
            clone_keeps_view::<Cmd>() ==> copy@ == self@,
    {
        let mut entries: Vec<LogEntry<Cmd>> = Vec::new();
        let mut i: usize = 0;
        while i < self.entries.len()
            invariant
                i <= self.entries.len(),
                entries.len() == i,
                clone_keeps_view::<Cmd>() ==> forall|k: int|
                    0 <= k < i ==> (#[trigger] entries[k])@ == self.entries[k]@,
            decreases self.entries.len() - i,
        {
            entries.push(self.entries[i].clone());
            i = i + 1;
        }
        assert(clone_keeps_view::<Cmd>() ==> entry_views(entries@) =~= entry_views(self.entries@));
        Log {
            snapshot_last_index: self.snapshot_last_index,
            snapshot_last_term: self.snapshot_last_term,
            entries,
        }
    }
}

/// Compaction changes neither the index nor the term of the newest entry, and every entry it
/// keeps stays at its index.
pub proof fn law_compaction_keeps_the_tail<C>(log: LogView<C>, index: nat)
    requires
        log.retains(index as int),
    ensures
        log.compact_through(index, log.term_of(index as int)).last_index() == log.last_index(),
        log.compact_through(index, log.term_of(index as int)).last_term() == log.last_term(),
        forall|i: int|
            index < i <= log.last_index() ==> #[trigger] log.compact_through(
                index,
                log.term_of(index as int),
            ).at(i) == log.at(i),
{
}

/// After a consistent merge the log holds, at the index of every incoming entry above the
/// snapshot boundary, an entry of that entry's term.
pub proof fn law_merge_adopts_the_incoming_terms<C>(
    log: LogView<C>,
    prev: nat,
    incoming: Seq<EntryView<C>>,
)
    requires
        prev <= log.last_index(),
    ensures
        forall|i: int|
            prev < i <= prev + incoming.len() && i > log.boundary ==> {
                &&& log.merge(prev, incoming).retains(i)
                &&& (#[trigger] log.merge(prev, incoming).at(i)).term == incoming[i - prev - 1].term
            },
{
    lemma_held(log, prev, incoming);
    let n = log.held(prev, incoming);
    let merged = log.merge(prev, incoming);
    if n > 0 {
        assert(log.holds(prev, incoming, n - 1));
    }
    if n < incoming.len() {
        let kept = log.truncate_from((prev + 1 + n) as int);
        assert(!log.holds(prev, incoming, n as int));
        assert(kept.last_index() == prev + n);
    }
    assert forall|i: int| prev < i <= prev + incoming.len() && i > log.boundary implies ({
        &&& merged.retains(i)
        &&& (#[trigger] merged.at(i)).term == incoming[i - prev - 1].term
    }) by {
        let k = i - prev - 1;
        if k < n {
            assert(log.holds(prev, incoming, k));
            assert(merged.at(i) == log.at(i));
        } else {
            assert(merged.at(i) == incoming.skip(n as int)[k - n]);
        }
    }
}

/// Merging the same entries a second time, or only the first few of them, changes nothing and finds
/// no conflict, so a retransmitted request is harmless, and a shorter one drops nothing.
pub proof fn law_merge_is_idempotent<C>(
    log: LogView<C>,
    prev: nat,
    incoming: Seq<EntryView<C>>,
    count: nat,
)
    requires
        prev <= log.last_index(),
        count <= incoming.len(),
    ensures
        log.merge(prev, incoming).merge(prev, incoming.take(count as int)) == log.merge(
            prev,
            incoming,
        ),
        log.merge(prev, incoming).conflict(prev, incoming.take(count as int)) is None,
        log.merge(prev, incoming).merge(prev, incoming) == log.merge(prev, incoming),
        log.merge(prev, incoming).conflict(prev, incoming) is None,
{
    law_merge_adopts_the_incoming_terms(log, prev, incoming);
    let merged = log.merge(prev, incoming);
    let part = incoming.take(count as int);
    assert forall|k: int| 0 <= k < incoming.len() implies #[trigger] merged.holds(
        prev,
        incoming,
        k,
    ) by {
        if prev + 1 + k > log.boundary {
            assert(merged.at(prev + 1 + k).term == incoming[k].term);
        }
    }
    assert forall|k: int| 0 <= k < part.len() implies #[trigger] merged.holds(prev, part, k) by {
        assert(merged.holds(prev, incoming, k));
    }
    lemma_held_unique(merged, prev, incoming, incoming.len());
    lemma_held_unique(merged, prev, part, part.len());
}

/// A merge never touches the entries through `prev`, and without a conflict it never removes any.
pub proof fn law_merge_keeps_the_prefix<C>(log: LogView<C>, prev: nat, incoming: Seq<EntryView<C>>)
    requires
        prev <= log.last_index(),
    ensures
        log.merge(prev, incoming).boundary == log.boundary,
        log.merge(prev, incoming).boundary_term == log.boundary_term,
        forall|i: int|
            log.retains(i) && i <= prev ==> log.merge(prev, incoming).retains(i)
                && #[trigger] log.merge(prev, incoming).at(i) == log.at(i),
        log.conflict(prev, incoming) is None ==> forall|i: int|
            log.retains(i) ==> log.merge(prev, incoming).retains(i) && #[trigger] log.merge(
                prev,
                incoming,
            ).at(i) == log.at(i),
{
    lemma_held(log, prev, incoming);
}

} // verus!
