//! Chunk files: one file for each station and chunk name, holding the
//! records that were flushed together, one per line. What is done to the
//! files is up to the caller; here are their names and their contents.

use crate::storage::records::{
    frame_records, framed, lemma_segments_of_framed, lines_of, one_line, reversed, segments,
    split_segments,
};
use crate::storage::text::starts_with;
use vstd::prelude::*;
use vstd::string::StringExecFns;

verus! {

// ---------------------------------------------------------------------------
// Names
// ---------------------------------------------------------------------------

/// The part of a chunk file's name behind the chunk name.
pub open spec fn extension() -> Seq<char> {
    seq!['.', 'n', 'd', 'j', 's', 'o', 'n']
}

/// The name of the directory of the chunk files, inside the data directory.
pub open spec fn chunk_dir_name() -> Seq<char> {
    seq!['c', 'h', 'u', 'n', 'k', 's']
}

/// The name of the file that holds a chunk of a station.
pub open spec fn chunk_file_name(station: Seq<char>, chunk: Seq<char>) -> Seq<char> {
    station + seq!['-'] + chunk + extension()
}

/// Whether a file name is that of a chunk of `station`: it begins with the
/// station's identifier and a hyphen.
pub open spec fn names_station(name: Seq<char>, station: Seq<char>) -> bool {
    station.push('-').is_prefix_of(name)
}

/// The path of the file `name` inside the directory `dir`.
pub open spec fn path_in(dir: Seq<char>, name: Seq<char>) -> Seq<char> {
    dir + seq!['/'] + name
}

/// The texts that a vector of strings holds.
pub open spec fn texts_of(names: Seq<String>) -> Seq<Seq<char>> {
    Seq::new(names.len(), |i: int| names[i]@)
}

/// The paths, inside `dir`, of those of `names` that name a chunk of
/// `station`, in the order of `names`.
pub open spec fn station_paths(dir: Seq<char>, names: Seq<Seq<char>>, station: Seq<char>) -> Seq<
    Seq<char>,
>
    decreases names.len(),
{
    if names.len() == 0 {
        Seq::empty()
    } else if names_station(names.last(), station) {
        station_paths(dir, names.drop_last(), station).push(path_in(dir, names.last()))
    } else {
        station_paths(dir, names.drop_last(), station)
    }
}

// ---------------------------------------------------------------------------
// Contents
// ---------------------------------------------------------------------------

/// The lines that are kept.
pub open spec fn not_empty() -> spec_fn(Seq<u8>) -> bool {
    |line: Seq<u8>| line.len() > 0
}

/// The records that the contents of a chunk file hold: its lines, without
/// the empty ones.
pub open spec fn chunk_records(data: Seq<u8>) -> Seq<Seq<u8>> {
    segments(data).filter(not_empty())
}

/// A file of the chunk directory: its name there and what it holds.
#[derive(Debug, Clone, PartialEq, Eq)]
pub struct ChunkFile {
    pub name: String,
    pub contents: Vec<u8>,
}

/// Names and contents of a vector of files.
pub open spec fn files_of(files: Seq<ChunkFile>) -> Seq<(Seq<char>, Seq<u8>)> {
    Seq::new(files.len(), |i: int| (files[i].name@, files[i].contents@))
}

/// The records of those of `files` that are chunks of `station`, file by
/// file in the order of `files`.
pub open spec fn station_records(files: Seq<(Seq<char>, Seq<u8>)>, station: Seq<char>) -> Seq<
    Seq<u8>,
>
    decreases files.len(),
{
    if files.len() == 0 {
        Seq::empty()
    } else if names_station(files.last().0, station) {
        station_records(files.drop_last(), station) + chunk_records(files.last().1)
    } else {
        station_records(files.drop_last(), station)
    }
}

/// The name of the file that holds the chunk `chunk_name` of `station_id`.
pub fn chunk_file_name_of(station_id: &str, chunk_name: &str) -> (name: String)
    ensures
        name@ == chunk_file_name(station_id@, chunk_name@),
{
    proof {
        reveal_strlit("-");
        reveal_strlit(".ndjson");
    }
    let mut name = String::from_str(station_id);
    name.append("-");
    name.append(chunk_name);
    name.append(".ndjson");
    assert("-"@ =~= seq!['-']);
    assert(".ndjson"@ =~= extension());
    name
}

/// Whether the file `name` holds a chunk of `station_id`.
pub fn is_chunk_of(name: &str, station_id: &str) -> (r: bool)
    ensures
        r == names_station(name@, station_id@),
{
    proof {
        reveal_strlit("-");
    }
    let mut prefix = String::from_str(station_id);
    prefix.append("-");
    assert(prefix@ =~= station_id@.push('-'));
    starts_with(name, prefix.as_str())
}

/// The records that the contents of a chunk file hold.
pub fn read_records(data: &[u8]) -> (out: Vec<Vec<u8>>)
    ensures
        lines_of(out@) == chunk_records(data@),
{
    let pieces = split_segments(data);
    let ghost all = lines_of(pieces@);
    let count = pieces.len();
    let mut stack = reversed(pieces);
    let mut out: Vec<Vec<u8>> = Vec::new();
    let mut i: usize = 0;
    proof {
        assert(all.take(0) =~= Seq::<Seq<u8>>::empty());
        assert(lines_of(out@) =~= all.take(0).filter(not_empty()));
    }
    while i < count
        invariant
            i <= count,
            count == all.len(),
            stack@.len() + i == count,
            forall|j: int| 0 <= j < stack@.len() ==> (#[trigger] stack@[j])@ == all[count - 1 - j],
            lines_of(out@) == all.take(i as int).filter(not_empty()),
        decreases count - i,
    {
        let line = match stack.pop() {
            Some(piece) => piece,
            None => Vec::new(),
        };
        assert(line@ == all[i as int]);
        i += 1;
        proof {
            assert(all.take(i as int) =~= all.take(i - 1).push(all[i - 1]));
            all.take(i - 1).lemma_filter_push(all[i - 1], not_empty());
        }
        if line.len() > 0 {
            proof {
                assert(lines_of(out@.push(line)) =~= lines_of(out@).push(line@));
            }
            out.push(line);
        }
    }
    proof {
        assert(all.take(count as int) =~= all);
    }
    out
}

/// The chunk files of one directory.
pub struct ChunkStore {
    dir: String,
}

impl ChunkStore {
    /// The path of the directory of the chunk files.
    pub closed spec fn view(&self) -> Seq<char> {
        self.dir@
    }

    /// The store whose files lie in the directory `chunks` inside `data_dir`.
    pub fn new(data_dir: &str) -> (store: Self)
        ensures
            store@ == path_in(data_dir@, chunk_dir_name()),
    {
        proof {
            reveal_strlit("/");
            reveal_strlit("chunks");
        }
        let mut dir = String::from_str(data_dir);
        dir.append("/");
        dir.append("chunks");
        assert("/"@ =~= seq!['/']);
        assert("chunks"@ =~= chunk_dir_name());
        ChunkStore { dir }
    }

    /// The path of the directory of the chunk files.
    pub fn dir(&self) -> (dir: &String)
        ensures
            dir@ == self@,
    {
        &self.dir
    }

    /// The path of the file `name` of this store.
    pub fn chunk_path(&self, name: &str) -> (path: String)
        ensures
            path@ == path_in(self@, name@),
    {
        proof {
            reveal_strlit("/");
        }
        let mut path = String::from_str(self.dir.as_str());
        path.append("/");
        path.append(name);
        assert("/"@ =~= seq!['/']);
        path
    }

    /// The file that holds the chunk `chunk_name` of `station_id` with the
    /// given records: its name in the directory, and its whole contents,
    /// one record per line. What a file of that name held before is not
    /// part of it.
    pub fn write_chunk(&self, station_id: &str, chunk_name: &str, records: &Vec<Vec<u8>>) -> (file:
        ChunkFile)
        ensures
            file.name@ == chunk_file_name(station_id@, chunk_name@),
            file.contents@ == framed(lines_of(records@)),
    {
        ChunkFile {
            name: chunk_file_name_of(station_id, chunk_name),
            contents: frame_records(records),
        }
    }

    /// The paths of those files of the directory that hold a chunk of
    /// `station_id`, given the names of all files of the directory, in the
    /// order of the names.
    pub fn list_chunks(&self, station_id: &str, names: &Vec<String>) -> (paths: Vec<String>)
        ensures
            texts_of(paths@) == station_paths(self@, texts_of(names@), station_id@),
    {
        let mut paths: Vec<String> = Vec::new();
        let ghost all = texts_of(names@);
        let mut i: usize = 0;
        proof {
            assert(all.take(0) =~= Seq::<Seq<char>>::empty());
            assert(texts_of(paths@) =~= station_paths(self@, all.take(0), station_id@));
        }
        while i < names.len()
            invariant
                i <= names.len(),
                all == texts_of(names@),
                texts_of(paths@) == station_paths(self@, all.take(i as int), station_id@),
            decreases names.len() - i,
        {
            let name = &names[i];
            proof {
                assert(all.take(i + 1).drop_last() =~= all.take(i as int));
                assert(all.take(i + 1).last() == name@);
            }
            if is_chunk_of(name.as_str(), station_id) {
                let path = self.chunk_path(name.as_str());
                proof {
                    assert(texts_of(paths@.push(path)) =~= texts_of(paths@).push(path@));
                }
                paths.push(path);
            }
            i += 1;
        }
        proof {
            assert(all.take(names.len() as int) =~= all);
        }
        paths
    }

    /// The records of the chunks of `station_id`, given files of the
    /// directory with their contents: file by file in the order given, and
    /// line by line within a file. Files of other stations are passed over.
    pub fn read_chunks(&self, station_id: &str, files: &Vec<ChunkFile>) -> (out: Vec<Vec<u8>>)
        ensures
            lines_of(out@) == station_records(files_of(files@), station_id@),
    {
        let mut out: Vec<Vec<u8>> = Vec::new();
        let ghost all = files_of(files@);
        let mut i: usize = 0;
        proof {
            assert(all.take(0) =~= Seq::<(Seq<char>, Seq<u8>)>::empty());
            assert(lines_of(out@) =~= station_records(all.take(0), station_id@));
        }
        while i < files.len()
            invariant
                i <= files.len(),
                all == files_of(files@),
                lines_of(out@) == station_records(all.take(i as int), station_id@),
            decreases files.len() - i,
        {
            let file = &files[i];
            proof {
                assert(all.take(i + 1).drop_last() =~= all.take(i as int));
                assert(all.take(i + 1).last() == (file.name@, file.contents@));
            }
            if is_chunk_of(file.name.as_str(), station_id) {
                let mut records = read_records(file.contents.as_slice());
                proof {
                    assert(lines_of(out@ + records@) =~= lines_of(out@) + lines_of(records@));
                }
                out.append(&mut records);
            }
            i += 1;
        }
        proof {
            assert(all.take(files.len() as int) =~= all);
        }
        out
    }
}

// ---------------------------------------------------------------------------
// Lemmas
// ---------------------------------------------------------------------------

/// A chunk file is found under the station that it was written for.
pub proof fn lemma_chunk_found_under_station(station: Seq<char>, chunk: Seq<char>)
    ensures
        names_station(chunk_file_name(station, chunk), station),
{
    let name = chunk_file_name(station, chunk);
    assert(station.push('-') =~= name.subrange(0, station.len() as int + 1));
}

/// Lines that are all kept stay as they are.
proof fn lemma_all_kept(lines: Seq<Seq<u8>>)
    requires
        forall|i: int| 0 <= i < lines.len() ==> (#[trigger] lines[i]).len() > 0,
    ensures
        lines.filter(not_empty()) == lines,
    decreases lines.len(),
{
    if lines.len() == 0 {
        assert(lines.filter(not_empty()) =~= lines) by {
            reveal(Seq::filter);
        }
    } else {
        let front = lines.drop_last();
        lemma_all_kept(front);
        front.lemma_filter_push(lines.last(), not_empty());
        assert(front.push(lines.last()) =~= lines);
    }
}

/// The contents that were written for records hold exactly those records,
/// in their order, where every record is one line and none is empty.
pub proof fn lemma_records_round_trip(records: Seq<Seq<u8>>)
    requires
        forall|i: int|
            0 <= i < records.len() ==> one_line(#[trigger] records[i]) && records[i].len() > 0,
    ensures
        chunk_records(framed(records)) == records,
{
    lemma_segments_of_framed(records);
    lemma_all_kept(records);
    records.lemma_filter_push(Seq::empty(), not_empty());
}

/// Reading the chunks of a station from a directory that holds the one file
/// that was written for it gives back the records that were written.
pub proof fn lemma_write_then_read(station: Seq<char>, chunk: Seq<char>, records: Seq<Seq<u8>>)
    requires
        forall|i: int|
            0 <= i < records.len() ==> one_line(#[trigger] records[i]) && records[i].len() > 0,
    ensures
        station_records(seq![(chunk_file_name(station, chunk), framed(records))], station)
            == records,
{
    let files = seq![(chunk_file_name(station, chunk), framed(records))];
    lemma_chunk_found_under_station(station, chunk);
    lemma_records_round_trip(records);
    assert(files.drop_last() =~= Seq::<(Seq<char>, Seq<u8>)>::empty());
    assert(station_records(files.drop_last(), station) =~= Seq::<Seq<u8>>::empty());
    assert(station_records(files, station) =~= records);
}

} // verus!
