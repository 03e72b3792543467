//! Records in a file: one record per line, each line ended by a line feed.

use vstd::prelude::*;

verus! {

/// The byte that ends a line.
pub const LINE_FEED: u8 = 10;

/// The byte that may stand before the line feed.
pub const CARRIAGE_RETURN: u8 = 13;

/// The byte sequences that a vector of byte vectors holds.
pub open spec fn lines_of(lines: Seq<Vec<u8>>) -> Seq<Seq<u8>> {
    Seq::new(lines.len(), |i: int| lines[i]@)
}

// ---------------------------------------------------------------------------
// Writing
// ---------------------------------------------------------------------------

/// The records, each followed by a line feed, one behind the other.
pub open spec fn framed(records: Seq<Seq<u8>>) -> Seq<u8>
    decreases records.len(),
{
    if records.len() == 0 {
        Seq::empty()
    } else {
        framed(records.drop_last()) + records.last().push(LINE_FEED)
    }
}

/// One record with the line feed that ends it.
pub fn frame_record(record: &[u8]) -> (out: Vec<u8>)
    ensures
        out@ == record@.push(LINE_FEED),
{
    let mut out: Vec<u8> = Vec::new();
    let mut i: usize = 0;
    while i < record.len()
        invariant
            i <= record.len(),
            out@ == record@.take(i as int),
        decreases record.len() - i,
    {
        out.push(record[i]);
        assert(record@.take(i + 1) =~= record@.take(i as int).push(record@[i as int]));
        i += 1;
    }
    assert(record@.take(record.len() as int) =~= record@);
    out.push(LINE_FEED);
    out
}

/// The contents of a file that holds the records, one per line.
pub fn frame_records(records: &Vec<Vec<u8>>) -> (out: Vec<u8>)
    ensures
        out@ == framed(lines_of(records@)),
{
    let mut out: Vec<u8> = Vec::new();
    let mut i: usize = 0;
    proof {
        assert(lines_of(records@).take(0) =~= Seq::<Seq<u8>>::empty());
    }
    while i < records.len()
        invariant
            i <= records.len(),
            out@ == framed(lines_of(records@).take(i as int)),
        decreases records.len() - i,
    {
        let ghost before = out@;
        let record = &records[i];
        let mut k: usize = 0;
        while k < record.len()
            invariant
                k <= record.len(),
                out@ == before + record@.take(k as int),
            decreases record.len() - k,
        {
            out.push(record[k]);
            assert(record@.take(k + 1) =~= record@.take(k as int).push(record@[k as int]));
            assert(before + record@.take(k + 1) =~= (before + record@.take(k as int)).push(
                record@[k as int],
            ));
            k += 1;
        }
        out.push(LINE_FEED);
        proof {
            let all = lines_of(records@);
            assert(record@.take(record.len() as int) =~= record@);
            assert(all.take(i + 1).drop_last() =~= all.take(i as int));
            assert(all.take(i + 1).last() == record@);
            assert(out@ =~= before + record@.push(LINE_FEED));
        }
        i += 1;
    }
    proof {
        assert(lines_of(records@).take(records.len() as int) =~= lines_of(records@));
    }
    out
}

// ---------------------------------------------------------------------------
// Reading
// ---------------------------------------------------------------------------

/// The place of the first line feed, or the length where there is none.
pub open spec fn line_end(data: Seq<u8>) -> int
    decreases data.len(),
{
    if data.len() == 0 || data[0] == LINE_FEED {
        0
    } else {
        1 + line_end(data.drop_first())
    }
}

/// The pieces between the line feeds: one more than there are line feeds.
pub open spec fn segments(data: Seq<u8>) -> Seq<Seq<u8>>
    decreases data.len(),
{
    let end = line_end(data);
    if end < 0 || end >= data.len() {
        seq![data]
    } else {
        seq![data.take(end)] + segments(data.skip(end + 1))
    }
}

/// Where no line feed stands before `end`, and one stands at `end` or the
/// bytes end there, `end` is the end of the first line.
pub proof fn lemma_line_end(data: Seq<u8>, end: int)
    requires
        0 <= end <= data.len(),
        forall|j: int| 0 <= j < end ==> data[j] != LINE_FEED,
        end == data.len() || data[end] == LINE_FEED,
    ensures
        line_end(data) == end,
    decreases end,
{
    if end > 0 {
        let rest = data.drop_first();
        assert forall|j: int| 0 <= j < end - 1 implies rest[j] != LINE_FEED by {
            assert(rest[j] == data[j + 1]);
        }
        lemma_line_end(rest, end - 1);
    }
}

/// Splits the bytes at every line feed.
pub fn split_segments(data: &[u8]) -> (out: Vec<Vec<u8>>)
    ensures
        lines_of(out@) == segments(data@),
{
    let mut out: Vec<Vec<u8>> = Vec::new();
    let mut cur: Vec<u8> = Vec::new();
    let ghost mut start: int = 0;
    let mut i: usize = 0;
    proof {
        assert(data@.skip(0) =~= data@);
        assert(lines_of(out@) + segments(data@.skip(0)) =~= segments(data@));
        assert(data@.subrange(0, 0) =~= cur@);
    }
    while i < data.len()
        invariant
            0 <= start <= i <= data.len(),
            cur@ == data@.subrange(start, i as int),
            forall|j: int| start <= j < i ==> data@[j] != LINE_FEED,
            lines_of(out@) + segments(data@.skip(start)) == segments(data@),
        decreases data.len() - i,
    {
        let b = data[i];
        if b == LINE_FEED {
            proof {
                let rest = data@.skip(start);
                assert forall|j: int| 0 <= j < i - start implies rest[j] != LINE_FEED by {
                    assert(rest[j] == data@[start + j]);
                }
                lemma_line_end(rest, i - start);
                assert(rest.take(i - start) =~= cur@);
                assert(rest.skip(i - start + 1) =~= data@.skip(i + 1));
                assert(lines_of(out@.push(cur)) =~= lines_of(out@).push(cur@));
                assert(lines_of(out@).push(cur@) + segments(data@.skip(i + 1)) =~= lines_of(out@)
                    + segments(rest));
                start = i + 1;
            }
            out.push(cur);
            cur = Vec::new();
            proof {
                assert(data@.subrange(start, i + 1) =~= cur@);
            }
        } else {
            proof {
                assert(data@.subrange(start, i + 1) =~= cur@.push(b));
            }
            cur.push(b);
        }
        i += 1;
    }
    proof {
        let rest = data@.skip(start);
        assert forall|j: int| 0 <= j < rest.len() implies rest[j] != LINE_FEED by {
            assert(rest[j] == data@[start + j]);
        }
        lemma_line_end(rest, rest.len() as int);
        assert(rest =~= cur@);
        assert(lines_of(out@.push(cur)) =~= lines_of(out@).push(cur@));
        assert(lines_of(out@).push(cur@) =~= lines_of(out@) + segments(rest));
    }
    out.push(cur);
    out
}

/// The values that were given, without the failures.
pub open spec fn successes<T>(results: Seq<Option<T>>) -> Seq<T>
    decreases results.len(),
{
    if results.len() == 0 {
        Seq::empty()
    } else {
        match results.last() {
            Some(value) => successes(results.drop_last()).push(value),
            None => successes(results.drop_last()),
        }
    }
}

/// The elements in reverse order.
pub fn reversed<T>(items: Vec<T>) -> (out: Vec<T>)
    ensures
        out@ == items@.reverse(),
{
    let ghost all = items@;
    let mut rest = items;
    let mut out: Vec<T> = Vec::new();
    while rest.len() > 0
        invariant
            rest@.len() + out@.len() == all.len(),
            forall|j: int| 0 <= j < rest@.len() ==> rest@[j] == all[j],
            forall|j: int| 0 <= j < out@.len() ==> out@[j] == all[all.len() - 1 - j],
        decreases rest.len(),
    {
        match rest.pop() {
            Some(item) => {
                out.push(item);
            },
            None => {},
        }
    }
    assert(out@ =~= all.reverse());
    out
}

/// Keeps what could be read of a run of records and drops the rest: a
/// record that is no reading never ends the run.
pub fn keep_parsed<T>(results: Vec<Option<T>>) -> (out: Vec<T>)
    ensures
        out@ == successes(results@),
{
    let ghost all = results@;
    let mut stack = reversed(results);
    let mut out: Vec<T> = Vec::new();
    proof {
        assert(all.take(0) =~= Seq::<Option<T>>::empty());
    }
    while stack.len() > 0
        invariant
            stack@.len() <= all.len(),
            forall|j: int| 0 <= j < stack@.len() ==> stack@[j] == all[all.len() - 1 - j],
            out@ == successes(all.take(all.len() - stack@.len())),
        decreases stack.len(),
    {
        let ghost done = all.len() - stack@.len();
        let next = stack.pop();
        proof {
            assert(all.take(done + 1).drop_last() =~= all.take(done));
            assert(all.take(done + 1).last() == all[done]);
        }
        match next {
            Some(Some(value)) => {
                out.push(value);
            },
            _ => {},
        }
    }
    proof {
        assert(all.take(all.len() as int) =~= all);
    }
    out
}

// ---------------------------------------------------------------------------
// Lemmas
// ---------------------------------------------------------------------------

/// No byte of the record is a line feed.
pub open spec fn one_line(record: Seq<u8>) -> bool {
    forall|j: int| 0 <= j < record.len() ==> record[j] != LINE_FEED
}

/// The first record of a file can be split off.
proof fn lemma_framed_front(records: Seq<Seq<u8>>)
    requires
        records.len() > 0,
    ensures
        framed(records) == records[0].push(LINE_FEED) + framed(records.skip(1)),
    decreases records.len(),
{
    if records.len() == 1 {
        assert(records.drop_last() =~= Seq::<Seq<u8>>::empty());
        assert(records.skip(1) =~= Seq::<Seq<u8>>::empty());
        assert(framed(records) =~= records[0].push(LINE_FEED) + framed(records.skip(1)));
    } else {
        lemma_framed_front(records.drop_last());
        assert(records.drop_last().skip(1) =~= records.skip(1).drop_last());
        assert(records.skip(1).last() == records.last());
        assert(framed(records) =~= records[0].push(LINE_FEED) + framed(records.skip(1)));
    }
}

/// Splitting a file of records gives the records back, and an empty piece
/// behind the last line feed.
pub proof fn lemma_segments_of_framed(records: Seq<Seq<u8>>)
    requires
        forall|i: int| 0 <= i < records.len() ==> one_line(#[trigger] records[i]),
    ensures
        segments(framed(records)) == records.push(Seq::empty()),
    decreases records.len(),
{
    let data = framed(records);
    if records.len() == 0 {
        assert(segments(data) =~= records.push(Seq::empty()));
    } else {
        let head = records[0];
        let tail = records.skip(1);
        lemma_framed_front(records);
        assert(one_line(head));
        assert forall|j: int| 0 <= j < head.len() implies data[j] != LINE_FEED by {
            assert(data[j] == head[j]);
        }
        assert(data[head.len() as int] == LINE_FEED);
        lemma_line_end(data, head.len() as int);
        assert(data.take(head.len() as int) =~= head);
        assert(data.skip(head.len() as int + 1) =~= framed(tail));
        assert forall|i: int| 0 <= i < tail.len() implies one_line(#[trigger] tail[i]) by {
            assert(tail[i] == records[i + 1]);
        }
        lemma_segments_of_framed(tail);
        assert(seq![head] + tail.push(Seq::empty()) =~= records.push(Seq::empty()));
    }
}

} // verus!
