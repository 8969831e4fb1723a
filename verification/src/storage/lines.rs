//! How the log file is laid out: one line for each entry, and possibly a header before them.
//!
//! What a line holds is turned into a value, and back, by the program around this library. Where the
//! lines are, and what each of them is for, is decided here.
use vstd::prelude::*;

use crate::types::log;
use crate::types::log::EntryView;
use crate::types::log::LogEntry;
use crate::types::primitives::LogIndex;

verus! {

/// The byte that ends a line.
pub const NEWLINE: u8 = 10;

/// The byte that may stand before it.
pub const RETURN: u8 = 13;

/// Whether the first line of `bytes` ends at `at`.
pub open spec fn ends_at(bytes: Seq<u8>, at: int) -> bool {
    &&& 0 <= at < bytes.len()
    &&& bytes[at] == NEWLINE
    &&& forall|i: int| 0 <= i < at ==> bytes[i] != NEWLINE
}

/// A line without the byte that may stand before its end.
pub open spec fn trimmed(line: Seq<u8>) -> Seq<u8> {
    if line.len() > 0 && line.last() == RETURN {
        line.drop_last()
    } else {
        line
    }
}

/// The lines of a text. The last one need not be ended.
pub open spec fn lines_of(bytes: Seq<u8>) -> Seq<Seq<u8>>
    decreases bytes.len(),
{
    if bytes.len() == 0 {
        Seq::empty()
    } else if exists|at: int| ends_at(bytes, at) {
        let at = choose|at: int| ends_at(bytes, at);
        if 0 <= at < bytes.len() {
            seq![trimmed(bytes.take(at))] + lines_of(bytes.skip(at + 1))
        } else {
            Seq::empty()
        }
    } else {
        seq![bytes]
    }
}

/// What a list of lines stands for.
pub open spec fn line_views(lines: Seq<Vec<u8>>) -> Seq<Seq<u8>> {
    Seq::new(lines.len(), |i: int| lines[i]@)
}

/// The text in which each of `lines` is ended.
pub open spec fn text_of(lines: Seq<Seq<u8>>) -> Seq<u8>
    decreases lines.len(),
{
    if lines.len() == 0 {
        Seq::empty()
    } else {
        lines[0] + seq![NEWLINE] + text_of(lines.skip(1))
    }
}

/// The first line of a text ends in one place.
proof fn lemma_ends_once(bytes: Seq<u8>, at: int)
    requires
        ends_at(bytes, at),
    ensures
        lines_of(bytes) == seq![trimmed(bytes.take(at))] + lines_of(bytes.skip(at + 1)),
{
    let other = choose|other: int| ends_at(bytes, other);
    assert(ends_at(bytes, other));
    assert(other == at) by {
        if other < at {
            assert(bytes[other] != NEWLINE);
        }
        if at < other {
            assert(bytes[at] != NEWLINE);
        }
    }
}

/// Splits a text into its lines.
pub fn split_lines(bytes: &Vec<u8>) -> (lines: Vec<Vec<u8>>)
    ensures
        line_views(lines@) == lines_of(bytes@),
{
    let mut lines: Vec<Vec<u8>> = Vec::new();
    let mut line: Vec<u8> = Vec::new();
    let mut start: usize = 0;
    let mut i: usize = 0;
    proof {
        assert(bytes@.skip(0) =~= bytes@);
        assert(line_views(lines@) + lines_of(bytes@) =~= lines_of(bytes@));
    }
    while i < bytes.len()
        invariant
            start <= i <= bytes.len(),
            line@ == bytes@.subrange(start as int, i as int),
            forall|k: int| start <= k < i ==> bytes@[k] != NEWLINE,
            line_views(lines@) + lines_of(bytes@.skip(start as int)) == lines_of(bytes@),
        decreases bytes.len() - i,
    {
        let byte = bytes[i];
        if byte == NEWLINE {
            let ghost rest = bytes@.skip(start as int);
            let ghost at = i - start;
            proof {
                assert forall|k: int| 0 <= k < at implies rest[k] != NEWLINE by {
                    assert(rest[k] == bytes@[start + k]);
                }
                assert(ends_at(rest, at));
                lemma_ends_once(rest, at);
                assert(rest.take(at) =~= line@);
                assert(rest.skip(at + 1) =~= bytes@.skip(i + 1));
            }
            if line.len() > 0 && line[line.len() - 1] == RETURN {
                line.pop();
            }
            assert(line@ =~= trimmed(rest.take(at)));
            let ghost before = lines@;
            lines.push(line);
            line = Vec::new();
            start = i + 1;
            proof {
                assert(line_views(lines@) =~= line_views(before).push(trimmed(rest.take(at))));
                assert(line_views(lines@) + lines_of(bytes@.skip(start as int)) =~= line_views(
                    before,
                ) + lines_of(rest));
            }
        } else {
            line.push(byte);
        }
        i = i + 1;
        proof {
            assert(line@ =~= bytes@.subrange(start as int, i as int));
        }
    }
    let ghost rest = bytes@.skip(start as int);
    assert(line@ =~= rest);
    if line.len() > 0 {
        proof {
            assert forall|at: int| !ends_at(rest, at) by {
                if 0 <= at < rest.len() {
                    assert(rest[at] == bytes@[start + at]);
                }
            }
            assert(lines_of(rest) =~= seq![rest]);
        }
        let ghost before = lines@;
        lines.push(line);
        assert(line_views(lines@) =~= line_views(before) + seq![rest]);
    } else {
        assert(lines_of(rest) =~= Seq::empty());
        assert(line_views(lines@) =~= line_views(lines@) + lines_of(rest));
    }
    lines
}

/// Joins lines into a text in which each of them is ended.
pub fn join_lines(lines: &Vec<Vec<u8>>) -> (bytes: Vec<u8>)
    ensures
        bytes@ == text_of(line_views(lines@)),
{
    let ghost views = line_views(lines@);
    let mut bytes: Vec<u8> = Vec::new();
    let mut i: usize = 0;
    proof {
        assert(views.skip(0) =~= views);
        assert(bytes@ + text_of(views) =~= text_of(views));
    }
    while i < lines.len()
        invariant
            i <= lines.len(),
            views == line_views(lines@),
            bytes@ + text_of(views.skip(i as int)) == text_of(views),
        decreases lines.len() - i,
    {
        let ghost before = bytes@;
        let line = &lines[i];
        let mut k: usize = 0;
        while k < line.len()
            invariant
                k <= line.len(),
                bytes@ == before + line@.take(k as int),
            decreases line.len() - k,
        {
            bytes.push(line[k]);
            k = k + 1;
            assert(before + line@.take(k as int) =~= (before + line@.take(k - 1)).push(
                line@[k - 1],
            ));
        }
        assert(line@.take(k as int) =~= line@);
        bytes.push(NEWLINE);
        proof {
            let rest = views.skip(i as int);
            assert(rest[0] == line@);
            assert(rest.skip(1) =~= views.skip(i + 1));
            assert(bytes@ + text_of(rest.skip(1)) =~= before + text_of(rest));
        }
        i = i + 1;
    }
    assert(views.skip(i as int).len() == 0);
    bytes
}

/// Lines that are joined and split again are the same lines, unless one of them holds a line end
/// itself, or ends in the byte that may stand before one.
pub proof fn law_lines_read_back(lines: Seq<Seq<u8>>)
    requires
        forall|i: int| 0 <= i < lines.len() ==> !(#[trigger] lines[i]).contains(NEWLINE),
        forall|i: int| 0 <= i < lines.len() ==> trimmed(#[trigger] lines[i]) == lines[i],
    ensures
        lines_of(text_of(lines)) == lines,
    decreases lines.len(),
{
    if lines.len() == 0 {
        assert(lines_of(text_of(lines)) =~= lines);
    } else {
        let text = text_of(lines);
        let at = lines[0].len() as int;
        assert forall|i: int| 0 <= i < at implies text[i] != NEWLINE by {
            assert(text[i] == lines[0][i]);
            assert(lines[0].contains(lines[0][i]));
        }
        assert(ends_at(text, at));
        lemma_ends_once(text, at);
        assert(text.take(at) =~= lines[0]);
        assert(text.skip(at + 1) =~= text_of(lines.skip(1)));
        assert forall|i: int| 0 <= i < lines.skip(1).len() implies !(#[trigger] lines.skip(
            1,
        )[i]).contains(NEWLINE) && trimmed(lines.skip(1)[i]) == lines.skip(1)[i] by {
            assert(lines.skip(1)[i] == lines[i + 1]);
        }
        law_lines_read_back(lines.skip(1));
        assert(seq![lines[0]] + lines.skip(1) =~= lines);
    }
}

/// What the next line of a log file can hold.
#[derive(Clone, Copy, Debug, PartialEq, Eq, Structural)]
pub enum Expected {
    /// Nothing: the line is empty and counts for nothing.
    Nothing,
    /// The header, which names the index of the first entry, or an entry. Only the very first line
    /// can be the header.
    HeaderOrEntry,
    Entry,
}

/// A log file that has been read up to some line.
pub struct LogReader<Cmd> {
    at_start: bool,
    first_index: LogIndex,
    entries: Vec<LogEntry<Cmd>>,
}

/// What a log file that has been read up to some line stands for.
#[verifier::ext_equal]
pub struct LogReaderView<C> {
    pub at_start: bool,
    pub first_index: LogIndex,
    pub entries: Seq<EntryView<C>>,
}

impl<C> LogReaderView<C> {
    /// Before the first line.
    pub open spec fn start() -> Self {
        LogReaderView {
            at_start: true,
            first_index: LogIndex { value: 1 },
            entries: Seq::empty(),
        }
    }

    /// What a line can hold.
    pub open spec fn expects(self, line: Seq<u8>) -> Expected {
        if line.len() == 0 {
            Expected::Nothing
        } else if self.at_start {
            Expected::HeaderOrEntry
        } else {
            Expected::Entry
        }
    }

    /// After a line without anything.
    pub open spec fn skip(self) -> Self {
        LogReaderView { at_start: false, ..self }
    }

    /// After the header.
    pub open spec fn header(self, first_index: LogIndex) -> Self {
        LogReaderView { at_start: false, first_index, ..self }
    }

    /// After an entry.
    pub open spec fn entry(self, entry: EntryView<C>) -> Self {
        LogReaderView { at_start: false, entries: self.entries.push(entry), ..self }
    }
}

impl<Cmd: View> View for LogReader<Cmd> {
    type V = LogReaderView<Cmd::V>;

    closed spec fn view(&self) -> LogReaderView<Cmd::V> {
        LogReaderView {
            at_start: self.at_start,
            first_index: self.first_index,
            entries: log::entry_views(self.entries@),
        }
    }
}

impl<Cmd: View> LogReader<Cmd> {
    /// A reader before the first line. Without a header, the first entry has index 1, which covers
    /// both an absent file and one that has only ever been appended to.
    pub fn start() -> (reader: Self)
        ensures
            reader@ == LogReaderView::<Cmd::V>::start(),
    {
        let reader = LogReader {
            at_start: true,
            first_index: LogIndex { value: 1 },
            entries: Vec::new(),
        };
        assert(reader@ =~= LogReaderView::<Cmd::V>::start());
        reader
    }

    /// What `line` can hold, if it comes next.
    pub fn expects(&self, line: &Vec<u8>) -> (expected: Expected)
        ensures
            expected == self@.expects(line@),
    {
        if line.len() == 0 {
            Expected::Nothing
        } else if self.at_start {
            Expected::HeaderOrEntry
        } else {
            Expected::Entry
        }
    }

    /// Passes over a line without anything.
    pub fn skip(&mut self)
        ensures
            final(self)@ == old(self)@.skip(),
    {
        self.at_start = false;
    }

    /// Takes the header.
    pub fn header(&mut self, first_index: LogIndex)
        ensures
            final(self)@ == old(self)@.header(first_index),
    {
        self.at_start = false;
        self.first_index = first_index;
    }

    /// Takes an entry.
    pub fn entry(&mut self, entry: LogEntry<Cmd>)
        ensures
            final(self)@ == old(self)@.entry(entry@),
    {
        let ghost before = self@;
        self.at_start = false;
        self.entries.push(entry);
        assert(self@ =~= before.entry(entry@));
    }

    /// The index that the first entry of the file occupies, and the entries.
    pub fn finish(self) -> (read: (LogIndex, Vec<LogEntry<Cmd>>))
        ensures
            read.0 == self@.first_index,
            log::entry_views(read.1@) == self@.entries,
    {
        (self.first_index, self.entries)
    }
}

/// A text is split at every line feed, which is not part of a line, nor is a carriage return right
/// before it. What stands behind the last line feed is a line if it is not empty.
pub proof fn law_text_is_split_at_line_feeds(line: Seq<u8>, rest: Seq<u8>)
    requires
        forall|i: int| 0 <= i < line.len() ==> #[trigger] line[i] != 10u8,
    ensures
        lines_of(line + seq![10u8] + rest) == seq![
            if line.len() > 0 && line[line.len() - 1] == 13u8 {
                line.take(line.len() - 1)
            } else {
                line
            },
        ] + lines_of(rest),
        lines_of(line) == if line.len() == 0 {
            Seq::<Seq<u8>>::empty()
        } else {
            seq![line]
        },
{
    let text = line + seq![10u8] + rest;
    let at = line.len() as int;
    assert forall|i: int| 0 <= i < at implies text[i] != NEWLINE by {
        assert(text[i] == line[i]);
    }
    assert(ends_at(text, at));
    lemma_ends_once(text, at);
    assert(text.take(at) =~= line);
    assert(text.skip(at + 1) =~= rest);
    if line.len() > 0 {
        assert(line.drop_last() =~= line.take(line.len() - 1));
    }
    assert forall|i: int| !ends_at(line, i) by {
        if 0 <= i < line.len() {
            assert(line[i] != 10u8);
        }
    }
}

/// Joined lines are each followed by a line feed.
pub proof fn law_lines_are_ended(lines: Seq<Seq<u8>>, line: Seq<u8>)
    ensures
        text_of(seq![line] + lines) == line + seq![10u8] + text_of(lines),
        text_of(Seq::empty()) == Seq::<u8>::empty(),
{
    assert((seq![line] + lines).skip(1) =~= lines);
}

/// Only the very first line can be a header, an empty line is passed over, and every other is an entry,
/// which comes behind those before it. Without a header the first entry has index 1.
pub proof fn law_log_file_is_read_line_by_line<C>(
    reader: LogReaderView<C>,
    line: Seq<u8>,
    first_index: LogIndex,
    entry: EntryView<C>,
)
    ensures
        ({
            let start = LogReaderView::<C>::start();
            &&& start.at_start
            &&& start.first_index.value == 1
            &&& start.entries.len() == 0
        }),
        reader.expects(line) == if line.len() == 0 {
            Expected::Nothing
        } else if reader.at_start {
            Expected::HeaderOrEntry
        } else {
            Expected::Entry
        },
        ({
            let after = reader.skip();
            &&& !after.at_start
            &&& after.first_index == reader.first_index
            &&& after.entries == reader.entries
        }),
        ({
            let after = reader.header(first_index);
            &&& !after.at_start
            &&& after.first_index == first_index
            &&& after.entries == reader.entries
        }),
        ({
            let after = reader.entry(entry);
            &&& !after.at_start
            &&& after.first_index == reader.first_index
            &&& after.entries == reader.entries + seq![entry]
        }),
{
    assert(reader.entry(entry).entries =~= reader.entries + seq![entry]);
}

} // verus!
