//! The in-memory buffer: for each station the readings that arrived for it,
//! in arrival order, until they are extracted for a flush.

use crate::storage::records::reversed;
use vstd::prelude::*;

verus! {

/// One sensor reading. The floating-point fields hold the IEEE-754 bit
/// patterns of the readings; `None` means that nothing was reported.
#[derive(Debug, Clone, PartialEq, Eq)]
pub struct Observation {
    pub station_id: String,
    pub time: String,
    pub temp: Option<u64>,
    pub humidity: Option<u64>,
    pub pressure: Option<u64>,
    pub wind_speed: Option<u64>,
    pub wind_dir: Option<u16>,
}

/// The readings of one station that were buffered together.
#[derive(Debug, Clone, PartialEq, Eq)]
pub struct StationBatch {
    pub station_id: String,
    pub observations: Vec<Observation>,
}

/// Stations with their readings, as a sequence of pairs.
pub type Runs = Seq<(Seq<char>, Seq<Observation>)>;

/// The pairs that a vector of station batches stands for.
pub open spec fn runs_of(entries: Seq<StationBatch>) -> Runs {
    Seq::new(entries.len(), |i: int| (entries[i].station_id@, entries[i].observations@))
}

/// Whether `runs` has a pair for `station`.
pub open spec fn holds(runs: Runs, station: Seq<char>) -> bool {
    exists|i: int| 0 <= i < runs.len() && (#[trigger] runs[i]).0 == station
}

/// The place of a pair for `station` in `runs`.
pub open spec fn slot(runs: Runs, station: Seq<char>) -> int {
    choose|i: int| 0 <= i < runs.len() && (#[trigger] runs[i]).0 == station
}

/// No station has two pairs.
pub open spec fn distinct(runs: Runs) -> bool {
    forall|i: int, j: int|
        0 <= i < j < runs.len() ==> (#[trigger] runs[i]).0 != (#[trigger] runs[j]).0
}

/// The readings held for `station`; none where it has no pair.
pub open spec fn buffered(runs: Runs, station: Seq<char>) -> Seq<Observation> {
    if holds(runs, station) {
        runs[slot(runs, station)].1
    } else {
        Seq::empty()
    }
}

/// The pairs as a mapping from station to readings.
pub open spec fn mapping(runs: Runs) -> Map<Seq<char>, Seq<Observation>> {
    Map::new(|s: Seq<char>| holds(runs, s), |s: Seq<char>| runs[slot(runs, s)].1)
}

/// `runs` after `more` was appended to the readings of `station`: behind
/// what its pair holds, or as a new last pair where it has none.
pub open spec fn appended(runs: Runs, station: Seq<char>, more: Seq<Observation>) -> Runs {
    if holds(runs, station) {
        let i = slot(runs, station);
        runs.update(i, (station, runs[i].1 + more))
    } else {
        runs.push((station, more))
    }
}

/// `runs` after one reading was inserted.
pub open spec fn inserted(runs: Runs, obs: Observation) -> Runs {
    appended(runs, obs.station_id@, seq![obs])
}

/// `runs` after the pairs of `batch` were appended, one after the other.
pub open spec fn merged(runs: Runs, batch: Runs) -> Runs
    decreases batch.len(),
{
    if batch.len() == 0 {
        runs
    } else {
        appended(merged(runs, batch.drop_last()), batch.last().0, batch.last().1)
    }
}

/// What extraction leaves behind, and what it hands out.
pub open spec fn extracted(runs: Runs) -> (Runs, Runs) {
    (Seq::empty(), runs)
}

/// Buffer of the readings that were not flushed yet.
#[derive(Debug)]
pub struct MemTable {
    buffer: Vec<StationBatch>,
}

impl MemTable {
    /// The stations with their readings, in the order in which the stations
    /// first appeared.
    pub closed spec fn runs(&self) -> Runs {
        runs_of(self.buffer@)
    }

    /// The buffer as a mapping from station to readings.
    pub open spec fn view(&self) -> Map<Seq<char>, Seq<Observation>> {
        mapping(self.runs())
    }

    /// Every station has one sequence of readings.
    pub open spec fn wf(&self) -> bool {
        distinct(self.runs())
    }

    /// An empty buffer.
    pub fn new() -> (table: Self)
        ensures
            table.wf(),
            table.runs() == Seq::<(Seq<char>, Seq<Observation>)>::empty(),
    {
        let table = MemTable { buffer: Vec::new() };
        assert(table.runs() =~= Seq::empty());
        table
    }

    /// What is buffered, station by station in the order in which the
    /// stations first appeared.
    pub fn entries(&self) -> (entries: &Vec<StationBatch>)
        ensures
            runs_of(entries@) == self.runs(),
    {
        &self.buffer
    }

    /// Whether nothing is buffered.
    pub fn is_empty(&self) -> (empty: bool)
        ensures
            empty == (self.runs().len() == 0),
    {
        self.buffer.len() == 0
    }

    /// Appends `more` to the readings of `station_id`.
    fn append_run(&mut self, station_id: String, more: Vec<Observation>)
        requires
            old(self).wf(),
        ensures
            final(self).wf(),
            final(self).runs() == appended(old(self).runs(), station_id@, more@),
    {
        let mut tail = more;
        let ghost before = self.runs();
        let mut i: usize = 0;
        while i < self.buffer.len()
            invariant
                i <= self.buffer.len(),
                self.runs() == before,
                before == old(self).runs(),
                distinct(before),
                tail@ == more@,
                forall|j: int| 0 <= j < i ==> (#[trigger] before[j]).0 != station_id@,
            decreases self.buffer.len() - i,
        {
            assert(before[i as int].0 == self.buffer@[i as int].station_id@);
            if self.buffer[i].station_id == station_id {
                self.buffer[i].observations.append(&mut tail);
                proof {
                    assert(holds(before, station_id@));
                    let k = slot(before, station_id@);
                    assert(before[k].0 == before[i as int].0);
                    assert(k == i);
                    assert(self.runs() =~= appended(before, station_id@, more@));
                }
                return;
            }
            i += 1;
        }
        proof {
            assert(!holds(before, station_id@));
        }
        self.buffer.push(StationBatch { station_id, observations: tail });
        proof {
            assert(self.runs() =~= appended(before, station_id@, more@));
        }
    }

    /// Appends the reading to the sequence of its station; a station that is
    /// new gets a sequence of its own, behind the stations that are there.
    pub fn insert(&mut self, obs: Observation)
        requires
            old(self).wf(),
        ensures
            final(self).wf(),
            final(self).runs() == inserted(old(self).runs(), obs),
            keyed(old(self).runs()) ==> keyed(final(self).runs()),
    {
        proof {
            if keyed(self.runs()) {
                lemma_inserted_keeps_keyed(self.runs(), obs);
            }
        }
        let station_id = obs.station_id.clone();
        let mut one: Vec<Observation> = Vec::new();
        one.push(obs);
        assert(one@ =~= seq![obs]);
        self.append_run(station_id, one);
    }

    /// Drops everything that is buffered.
    pub fn flush(&mut self)
        ensures
            final(self).wf(),
            final(self).runs() == Seq::<(Seq<char>, Seq<Observation>)>::empty(),
    {
        self.buffer.clear();
        assert(self.runs() =~= Seq::empty());
    }

    /// Takes everything out of the buffer at once and leaves it empty. An
    /// empty result means that there is nothing to flush.
    pub fn extract(&mut self) -> (batch: Vec<StationBatch>)
        ensures
            final(self).wf(),
            final(self).runs() == extracted(old(self).runs()).0,
            runs_of(batch@) == extracted(old(self).runs()).1,
            batch@.len() == old(self).runs().len(),
    {
        let mut batch: Vec<StationBatch> = Vec::new();
        std::mem::swap(&mut self.buffer, &mut batch);
        assert(self.runs() =~= Seq::empty());
        batch
    }

    /// Puts a batch back: the readings of each of its stations go behind what
    /// has been buffered for that station since.
    pub fn merge_back(&mut self, batch: Vec<StationBatch>)
        requires
            old(self).wf(),
        ensures
            final(self).wf(),
            final(self).runs() == merged(old(self).runs(), runs_of(batch@)),
    {
        let ghost all = batch@;
        let mut stack = reversed(batch);
        proof {
            assert(runs_of(all.take(0)) =~= Seq::empty());
        }
        while stack.len() > 0
            invariant
                self.wf(),
                stack@.len() <= all.len(),
                forall|j: int| 0 <= j < stack@.len() ==> stack@[j] == all[all.len() - 1 - j],
                self.runs() == merged(old(self).runs(), runs_of(all.take(all.len() - stack@.len()))),
            decreases stack.len(),
        {
            let ghost done = all.len() - stack@.len();
            match stack.pop() {
                Some(entry) => {
                    proof {
                        let longer = runs_of(all.take(done + 1));
                        assert(entry == all[done]);
                        assert(longer.drop_last() =~= runs_of(all.take(done)));
                        assert(longer.last() == (entry.station_id@, entry.observations@));
                    }
                    self.append_run(entry.station_id, entry.observations);
                },
                None => {},
            }
        }
        proof {
            assert(all.take(all.len() as int) =~= all);
        }
    }
}

impl Default for MemTable {
    /// An empty buffer.
    fn default() -> (table: Self)
        ensures
            table.wf(),
            table.runs() == Seq::<(Seq<char>, Seq<Observation>)>::empty(),
    {
        MemTable::new()
    }
}

// ---------------------------------------------------------------------------
// Lemmas
// ---------------------------------------------------------------------------

/// Every reading stands under the station that it names.
pub open spec fn keyed(runs: Runs) -> bool {
    forall|i: int, k: int|
        0 <= i < runs.len() && 0 <= k < runs[i].1.len() ==> (#[trigger] runs[i].1[k]).station_id@
            == runs[i].0
}

/// Where no station has two pairs, the pair at place `i` is the one that is
/// found for its station.
pub proof fn lemma_found_at(runs: Runs, i: int)
    requires
        distinct(runs),
        0 <= i < runs.len(),
    ensures
        holds(runs, runs[i].0),
        slot(runs, runs[i].0) == i,
        buffered(runs, runs[i].0) == runs[i].1,
{
    assert(holds(runs, runs[i].0));
    let k = slot(runs, runs[i].0);
    assert(runs[k].0 == runs[i].0);
}

/// Appending adds to the readings of the station named, behind those that
/// are there, and changes nothing for any other station.
pub proof fn lemma_appended(
    runs: Runs,
    station: Seq<char>,
    more: Seq<Observation>,
    other: Seq<char>,
)
    requires
        distinct(runs),
    ensures
        distinct(appended(runs, station, more)),
        holds(appended(runs, station, more), station),
        buffered(appended(runs, station, more), station) == buffered(runs, station) + more,
        other != station ==> holds(appended(runs, station, more), other) == holds(runs, other),
        other != station ==> buffered(appended(runs, station, more), other) == buffered(
            runs,
            other,
        ),
{
    let after = appended(runs, station, more);
    let at = if holds(runs, station) {
        slot(runs, station)
    } else {
        runs.len() as int
    };
    assert(after.len() > at >= 0 && after[at].0 == station);
    assert forall|i: int| 0 <= i < runs.len() && i != at implies after[i] == runs[i] by {}
    assert forall|i: int| 0 <= i < runs.len() implies (#[trigger] after[i]).0 == runs[i].0 by {}
    assert forall|i: int, j: int| 0 <= i < j < after.len() implies (#[trigger] after[i]).0 != (
    #[trigger] after[j]).0 by {
        if j < runs.len() {
            assert(runs[i].0 != runs[j].0);
        } else {
            assert(runs[i].0 != station);
        }
    }
    lemma_found_at(after, at);
    if holds(runs, station) {
        lemma_found_at(runs, at);
        assert(after[at].1 == runs[at].1 + more);
    } else {
        assert(after[at].1 =~= buffered(runs, station) + more);
    }
    if other != station {
        if holds(runs, other) {
            let k = slot(runs, other);
            assert(after[k].0 == other);
            lemma_found_at(after, k);
            lemma_found_at(runs, k);
        }
        if holds(after, other) {
            let k = slot(after, other);
            assert(k < runs.len());
            assert(runs[k].0 == other);
        }
    }
}

/// Inserting a reading keeps every reading under the station that it names.
pub proof fn lemma_inserted_keeps_keyed(runs: Runs, obs: Observation)
    requires
        distinct(runs),
        keyed(runs),
    ensures
        keyed(inserted(runs, obs)),
{
    let after = inserted(runs, obs);
    assert forall|i: int, k: int| 0 <= i < after.len() && 0 <= k < after[i].1.len() implies (
    #[trigger] after[i].1[k]).station_id@ == after[i].0 by {
        if holds(runs, obs.station_id@) && i == slot(runs, obs.station_id@) {
            if k < runs[i].1.len() {
                assert(runs[i].1[k].station_id@ == runs[i].0);
            }
        } else if i < runs.len() {
            assert(runs[i].1[k].station_id@ == runs[i].0);
        }
    }
}

/// After two readings of one station were inserted, the sequence of that
/// station ends with the two, in the order in which they came.
pub proof fn lemma_insert_keeps_arrival_order(runs: Runs, first: Observation, second: Observation)
    requires
        distinct(runs),
        first.station_id@ == second.station_id@,
    ensures
        buffered(inserted(inserted(runs, first), second), first.station_id@) == buffered(
            runs,
            first.station_id@,
        ) + seq![first, second],
        mapping(inserted(inserted(runs, first), second))[first.station_id@] == buffered(
            runs,
            first.station_id@,
        ) + seq![first, second],
{
    let station = first.station_id@;
    lemma_appended(runs, station, seq![first], station);
    lemma_appended(inserted(runs, first), station, seq![second], station);
    assert(buffered(runs, station) + seq![first] + seq![second] =~= buffered(runs, station)
        + seq![first, second]);
}

/// Inserting a reading changes nothing for the other stations.
pub proof fn lemma_insert_leaves_others(runs: Runs, obs: Observation, other: Seq<char>)
    requires
        distinct(runs),
        other != obs.station_id@,
    ensures
        holds(inserted(runs, obs), other) == holds(runs, other),
        buffered(inserted(runs, obs), other) == buffered(runs, other),
{
    lemma_appended(runs, obs.station_id@, seq![obs], other);
}

/// Putting a batch back loses nothing and invents nothing: for every station
/// the readings are those that were buffered, followed by those of the batch.
pub proof fn lemma_merged(runs: Runs, batch: Runs, station: Seq<char>)
    requires
        distinct(runs),
        distinct(batch),
    ensures
        distinct(merged(runs, batch)),
        holds(merged(runs, batch), station) == (holds(runs, station) || holds(batch, station)),
        buffered(merged(runs, batch), station) == buffered(runs, station) + buffered(
            batch,
            station,
        ),
    decreases batch.len(),
{
    if batch.len() == 0 {
        assert(buffered(runs, station) + buffered(batch, station) =~= buffered(runs, station));
    } else {
        let front = batch.drop_last();
        let last = batch.last();
        assert forall|i: int, j: int| 0 <= i < j < front.len() implies (#[trigger] front[i]).0 != (
        #[trigger] front[j]).0 by {
            assert(batch[i].0 != batch[j].0);
        }
        if holds(front, last.0) {
            let k = slot(front, last.0);
            assert(batch[k].0 != batch[batch.len() - 1].0);
        }
        assert(batch =~= appended(front, last.0, last.1));
        lemma_appended(front, last.0, last.1, station);
        lemma_merged(runs, front, station);
        lemma_merged(runs, front, last.0);
        lemma_appended(merged(runs, front), last.0, last.1, station);
        if station == last.0 {
            assert(buffered(runs, station) + buffered(front, station) + last.1 =~= buffered(
                runs,
                station,
            ) + (buffered(front, station) + last.1));
        }
    }
}

/// Extracting twice in a row gives nothing the second time.
pub proof fn lemma_extract_twice(runs: Runs)
    ensures
        extracted(extracted(runs).0).1 == Seq::<(Seq<char>, Seq<Observation>)>::empty(),
        mapping(extracted(extracted(runs).0).1) == Map::<Seq<char>, Seq<Observation>>::empty(),
        mapping(extracted(runs).1) == mapping(runs),
{
    assert(mapping(Seq::empty()) =~= Map::<Seq<char>, Seq<Observation>>::empty());
}

} // verus!
