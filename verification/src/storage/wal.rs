//! The write-ahead log: an append-only file with one record per line. What
//! is done to the file is up to the caller; here are its name, the bytes
//! that an append adds, and the lines that a replay has to read.

use crate::storage::records::{
    frame_record, framed, lemma_segments_of_framed, lines_of, one_line, reversed, segments,
    split_segments, CARRIAGE_RETURN, LINE_FEED,
};
use vstd::prelude::*;

verus! {

/// Space, tab, line feed, vertical tab, form feed and carriage return.
pub open spec fn is_space(b: u8) -> bool {
    b == 32 || 9 <= b <= 13
}

/// A line that holds nothing but white space, or nothing at all.
pub open spec fn is_blank(line: Seq<u8>) -> bool {
    forall|j: int| 0 <= j < line.len() ==> is_space(#[trigger] line[j])
}

/// The lines that are kept.
pub open spec fn not_blank() -> spec_fn(Seq<u8>) -> bool {
    |line: Seq<u8>| !is_blank(line)
}

/// The line that a piece of the log holds: where a line feed ends the piece,
/// a carriage return before the line feed belongs to the line ending.
pub open spec fn log_line(piece: Seq<u8>, ended: bool) -> Seq<u8> {
    if ended && piece.len() > 0 && piece.last() == CARRIAGE_RETURN {
        piece.drop_last()
    } else {
        piece
    }
}

/// The lines of the log, from front to back.
pub open spec fn log_lines(data: Seq<u8>) -> Seq<Seq<u8>> {
    let pieces = segments(data);
    Seq::new(pieces.len(), |i: int| log_line(pieces[i], i + 1 < pieces.len()))
}

/// The lines of the log that may hold a record: all but the blank ones, in
/// the order of the log.
pub open spec fn log_records(data: Seq<u8>) -> Seq<Seq<u8>> {
    log_lines(data).filter(not_blank())
}

/// Whether a line holds nothing but white space.
pub fn is_blank_line(line: &[u8]) -> (blank: bool)
    ensures
        blank == is_blank(line@),
{
    let mut i: usize = 0;
    while i < line.len()
        invariant
            i <= line.len(),
            forall|j: int| 0 <= j < i ==> is_space(#[trigger] line@[j]),
        decreases line.len() - i,
    {
        let b = line[i];
        if !(b == 32 || (9 <= b && b <= 13)) {
            return false;
        }
        i += 1;
    }
    true
}

/// The write-ahead log at one place in the file system.
pub struct WAL {
    path: String,
}

impl WAL {
    /// The path of the log file.
    pub closed spec fn view(&self) -> Seq<char> {
        self.path@
    }

    /// The log at `path`.
    pub fn open(path: String) -> (wal: Self)
        ensures
            wal@ == path@,
    {
        WAL { path }
    }

    /// The path of the log file.
    pub fn path(&self) -> (path: &String)
        ensures
            path@ == self@,
    {
        &self.path
    }

    /// The bytes that appending a record adds to the end of the file: the
    /// record and a line feed.
    pub fn append(&self, data: &[u8]) -> (out: Vec<u8>)
        ensures
            out@ == data@.push(LINE_FEED),
    {
        frame_record(data)
    }

    /// The lines of the file that a replay has to read as records, in the
    /// order of the file. Blank lines are left out. A line of white space
    /// beyond the six bytes of [`is_space`] is handed on like any line that
    /// is no record.
    pub fn replay(&self, content: &[u8]) -> (out: Vec<Vec<u8>>)
        ensures
            lines_of(out@) == log_records(content@),
    {
        let pieces = split_segments(content);
        let ghost all = lines_of(pieces@);
        let ghost lines = log_lines(content@);
        let count = pieces.len();
        let mut stack = reversed(pieces);
        let mut out: Vec<Vec<u8>> = Vec::new();
        let mut i: usize = 0;
        proof {
            assert(lines.take(0) =~= Seq::<Seq<u8>>::empty());
            assert(lines_of(out@) =~= lines.take(0).filter(not_blank()));
        }
        while i < count
            invariant
                i <= count,
                count == all.len(),
                all == segments(content@),
                lines == log_lines(content@),
                stack@.len() + i == count,
                forall|j: int| 0 <= j < stack@.len() ==> (#[trigger] stack@[j])@ == all[count - 1 - j],
                lines_of(out@) == lines.take(i as int).filter(not_blank()),
            decreases count - i,
        {
            let mut line = match stack.pop() {
                Some(piece) => piece,
                None => Vec::new(),
            };
            assert(line@ == all[i as int]);
            i += 1;
            if i < count && line.len() > 0 && line[line.len() - 1] == CARRIAGE_RETURN {
                line.pop();
            }
            proof {
                assert(line@ =~= lines[i - 1]);
                assert(lines.take(i as int) =~= lines.take(i - 1).push(lines[i - 1]));
                lines.take(i - 1).lemma_filter_push(lines[i - 1], not_blank());
            }
            if !is_blank_line(line.as_slice()) {
                proof {
                    assert(lines_of(out@.push(line)) =~= lines_of(out@).push(line@));
                }
                out.push(line);
            }
        }
        proof {
            assert(lines.take(count as int) =~= lines);
        }
        out
    }
}

// ---------------------------------------------------------------------------
// Lemmas
// ---------------------------------------------------------------------------

/// A record that can be replayed: one line that is not blank and does not
/// end in a carriage return.
pub open spec fn replayable(record: Seq<u8>) -> bool {
    &&& one_line(record)
    &&& !is_blank(record)
    &&& record.last() != CARRIAGE_RETURN
}

/// Lines that are all kept stay as they are.
proof fn lemma_all_kept(lines: Seq<Seq<u8>>)
    requires
        forall|i: int| 0 <= i < lines.len() ==> !is_blank(#[trigger] lines[i]),
    ensures
        lines.filter(not_blank()) == lines,
    decreases lines.len(),
{
    if lines.len() == 0 {
        assert(lines.filter(not_blank()) =~= lines) by {
            reveal(Seq::filter);
        }
    } else {
        let front = lines.drop_last();
        lemma_all_kept(front);
        front.lemma_filter_push(lines.last(), not_blank());
        assert(front.push(lines.last()) =~= lines);
    }
}

/// A replay of a log to which records were appended, and nothing else, reads
/// those records, in the order in which they were appended.
pub proof fn lemma_replay_of_appended(records: Seq<Seq<u8>>)
    requires
        forall|i: int| 0 <= i < records.len() ==> replayable(#[trigger] records[i]),
    ensures
        log_records(framed(records)) == records,
{
    let data = framed(records);
    lemma_segments_of_framed(records);
    let lines = log_lines(data);
    assert(lines =~= records.push(Seq::empty()));
    lemma_all_kept(records);
    records.lemma_filter_push(Seq::empty(), not_blank());
    assert(is_blank(Seq::<u8>::empty()));
}

} // verus!
