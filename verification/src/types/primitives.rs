//! Terms, log positions, and server identifiers.
use vstd::prelude::*;

use crate::text;


verus! {

/// Monotonically increasing term number.
///
/// Terms are the logical clock of the cluster. Every message carries one, and a node that sees a
/// term higher than its own steps down and adopts it, which is how stale leaders and stale votes
/// are detected (section 5.1).
#[derive(Clone, Copy, Debug, PartialEq, Eq, PartialOrd, Ord, Hash, Structural)]
pub struct Term {
    pub value: u64,
}

/// The term after `term`: the next one, or the same where there is none.
pub open spec fn next_term(term: Term) -> Term {
    if term.value == u64::MAX {
        term
    } else {
        Term { value: (term.value + 1) as u64 }
    }
}

impl Term {
    /// Returns the following term. Saturates at `u64::MAX` rather than wrapping, since a wrapped
    /// term would make an ancient leader look current.
    pub fn next(self) -> (next: Term)
        ensures
            next == next_term(self),
            next.value == if self.value < u64::MAX {
                self.value + 1
            } else {
                u64::MAX as int
            },
    {
        Term { value: self.value.saturating_add(1) }
    }

    /// The term as shown in messages to people: `T` and the number.
    pub fn display(self) -> (s: String)
        ensures
            s@ == "T"@ + text::decimal(self.value as nat),
    {
        text::render_prefixed("T", self.value)
    }
}

impl Default for Term {
    /// Term 0, before any election.
    fn default() -> (term: Self)
        ensures
            term.value == 0,
    {
        Term { value: 0 }
    }
}

impl From<u64> for Term {
    fn from(value: u64) -> (term: Self) {
        Term { value }
    }
}

impl vstd::std_specs::convert::FromSpecImpl<u64> for Term {
    open spec fn obeys_from_spec() -> bool {
        true
    }

    open spec fn from_spec(value: u64) -> Self {
        Term { value }
    }
}

/// One-based position of an entry in the replicated log.
///
/// Index 0 is the sentinel for "no entries" or "before the first entry", so it is a valid value
/// for `commit_index` and `prev_log_index` but never addresses a real entry. The first entry a
/// leader appends has index 1.
#[derive(Clone, Copy, Debug, PartialEq, Eq, PartialOrd, Ord, Hash, Structural)]
pub struct LogIndex {
    pub value: u64,
}

/// The position after `index`: the next one, or the same where there is none.
pub open spec fn after(index: LogIndex) -> LogIndex {
    if index.value == u64::MAX {
        index
    } else {
        LogIndex { value: (index.value + 1) as u64 }
    }
}

impl LogIndex {
    /// Converts a slice length into the index of its last element, since a log of `len` entries
    /// starting at 1 ends at index `len`.
    pub fn from_length(len: usize) -> (index: LogIndex)
        ensures
            index.value == len,
    {
        LogIndex { value: len as u64 }
    }

    /// Returns the following index. Saturates at `u64::MAX`.
    pub fn next(self) -> (next: LogIndex)
        ensures
            next == after(self),
            next.value == if self.value < u64::MAX {
                self.value + 1
            } else {
                u64::MAX as int
            },
    {
        LogIndex { value: self.value.saturating_add(1) }
    }

    /// Returns the preceding index, or `None` at the index 0 sentinel.
    pub fn prev(self) -> (prev: Option<LogIndex>)
        ensures
            prev is None <==> self.value == 0,
            prev matches Some(p) ==> p.value == self.value - 1,
    {
        if self.value == 0 {
            None
        } else {
            Some(LogIndex { value: self.value - 1 })
        }
    }

    /// Returns `self` advanced by `n` positions. Saturates at `u64::MAX`.
    pub fn advance_by(self, n: u64) -> (index: LogIndex)
        ensures
            index.value == if self.value + n > u64::MAX {
                u64::MAX as int
            } else {
                self.value + n
            },
    {
        LogIndex { value: self.value.saturating_add(n) }
    }

    /// Number of positions from `base` up to `self`, or `None` when `self` does not lie strictly
    /// after `base`.
    pub fn value_since(self, base: LogIndex) -> (steps: Option<u64>)
        ensures
            steps is Some <==> self.value > base.value,
            steps matches Some(d) ==> d == self.value - base.value,
    {
        if self.value > base.value {
            Some(self.value - base.value)
        } else {
            None
        }
    }

    /// The position as shown in messages to people: `I` and the number.
    pub fn display(self) -> (s: String)
        ensures
            s@ == "I"@ + text::decimal(self.value as nat),
    {
        text::render_prefixed("I", self.value)
    }
}

impl Default for LogIndex {
    /// Index 0, the position before the first entry.
    fn default() -> (index: Self)
        ensures
            index.value == 0,
    {
        LogIndex { value: 0 }
    }
}

impl From<u64> for LogIndex {
    fn from(value: u64) -> (index: Self) {
        LogIndex { value }
    }
}

impl vstd::std_specs::convert::FromSpecImpl<u64> for LogIndex {
    open spec fn obeys_from_spec() -> bool {
        true
    }

    open spec fn from_spec(value: u64) -> Self {
        LogIndex { value }
    }
}

/// Cluster-wide unique server identifier. Stable across restarts, because a node's persisted vote
/// and a leader's replication state are both keyed by it.
#[derive(Clone, Copy, Debug, PartialEq, Eq, Hash, Structural)]
pub struct NodeId {
    pub value: u64,
}

impl NodeId {
    /// The underlying numeric identifier.
    pub fn value(self) -> (value: u64)
        ensures
            value == self.value,
    {
        self.value
    }

    /// The identifier as shown in messages to people: `N` and the number.
    pub fn display(self) -> (s: String)
        ensures
            s@ == "N"@ + text::decimal(self.value as nat),
    {
        text::render_prefixed("N", self.value)
    }
}

impl From<u64> for NodeId {
    fn from(value: u64) -> (id: Self) {
        NodeId { value }
    }
}

impl vstd::std_specs::convert::FromSpecImpl<u64> for NodeId {
    open spec fn obeys_from_spec() -> bool {
        true
    }

    open spec fn from_spec(value: u64) -> Self {
        NodeId { value }
    }
}

} // verus!
