//! The flush pipeline, as far as it decides: a scheduler that takes the
//! buffer out at fixed intervals and offers it to a bounded queue, and a
//! worker that writes what the queue hands it into chunk files. Waiting,
//! the queue itself and the files belong to the caller, who reports what
//! happened and is told what to do next.

use crate::storage::memtable::{extracted, merged, runs_of, MemTable, Runs, StationBatch};
use crate::storage::text::{decimal, decimal_string};
use vstd::prelude::*;
use vstd::string::StringExecFns;

verus! {

/// The number of batches that the queue between scheduler and worker holds.
pub const QUEUE_CAPACITY: usize = 2;

/// The seconds between two extractions of the buffer.
pub const FLUSH_INTERVAL_SECS: u64 = 5;

/// The seconds that the scheduler waits for room in a full queue.
pub const SEND_TIMEOUT_SECS: u64 = 2;

// ---------------------------------------------------------------------------
// Chunk names
// ---------------------------------------------------------------------------

/// Why a batch is written.
#[derive(Debug, Clone, Copy, PartialEq, Eq, Structural)]
pub enum FlushKind {
    /// The worker got the batch from the queue in normal operation.
    Periodic,
    /// The worker drains the queue before it stops.
    Shutdown,
    /// The buffer is written at once, without the queue.
    Direct,
}

/// The seconds that name a chunk: those since the epoch, or zero where the
/// clock stands before the epoch.
pub open spec fn label_secs(since_epoch: Option<u64>) -> nat {
    match since_epoch {
        Some(secs) => secs as nat,
        None => 0,
    }
}

/// The name of the chunks of a flush.
pub open spec fn chunk_label(kind: FlushKind, since_epoch: Option<u64>) -> Seq<char> {
    match kind {
        FlushKind::Periodic => seq!['f', 'l', 'u', 's', 'h', '-'] + decimal(
            label_secs(since_epoch),
        ),
        FlushKind::Shutdown => seq!['s', 'h', 'u', 't', 'd', 'o', 'w', 'n'],
        FlushKind::Direct => decimal(label_secs(since_epoch)),
    }
}

/// The name of the chunks of a flush, from its kind and the clock.
pub fn chunk_name(kind: FlushKind, since_epoch: Option<u64>) -> (name: String)
    ensures
        name@ == chunk_label(kind, since_epoch),
{
    let secs: u64 = match since_epoch {
        Some(secs) => secs,
        None => 0,
    };
    match kind {
        FlushKind::Periodic => {
            proof {
                reveal_strlit("flush-");
            }
            let mut name = String::from_str("flush-");
            let digits = decimal_string(secs);
            name.append(digits.as_str());
            assert("flush-"@ =~= seq!['f', 'l', 'u', 's', 'h', '-']);
            name
        },
        FlushKind::Shutdown => {
            proof {
                reveal_strlit("shutdown");
            }
            let name = String::from_str("shutdown");
            assert("shutdown"@ =~= seq!['s', 'h', 'u', 't', 'd', 'o', 'w', 'n']);
            name
        },
        FlushKind::Direct => decimal_string(secs),
    }
}

// ---------------------------------------------------------------------------
// Scheduler
// ---------------------------------------------------------------------------

/// What the queue answered to an offer that does not wait.
#[derive(Debug, PartialEq, Eq)]
pub enum Offer {
    /// The queue took the batch.
    Accepted,
    /// The queue is full and gave the batch back.
    Full(Vec<StationBatch>),
    /// The queue has no receiver any more and gave the batch back.
    Closed(Vec<StationBatch>),
}

/// What the scheduler does after an offer.
#[derive(Debug, PartialEq, Eq)]
pub enum AfterOffer {
    /// Nothing is left to do in this cycle.
    Done,
    /// Wait for room in the queue, for `timeout_secs` at most, then report
    /// how the wait ended.
    Wait { batch: Vec<StationBatch>, timeout_secs: u64 },
}

/// How the wait for room in the queue ended.
#[derive(Debug, PartialEq, Eq)]
pub enum Wait {
    /// The queue took the batch.
    Sent,
    /// The time ran out; the batch is still with the scheduler.
    TimedOut(Vec<StationBatch>),
    /// The queue lost its receiver; the batch is still with the scheduler.
    Closed(Vec<StationBatch>),
}

/// The batch that comes back from a wait, if one does.
pub open spec fn returned(outcome: Wait) -> Option<Seq<StationBatch>> {
    match outcome {
        Wait::Sent => None,
        Wait::TimedOut(batch) => Some(batch@),
        Wait::Closed(batch) => Some(batch@),
    }
}

/// A cycle of the scheduler begins: the whole buffer is taken out. `None`
/// means that it was empty and the cycle is over; else the batch is to be
/// offered to the queue.
pub fn scheduler_tick(table: &mut MemTable) -> (batch: Option<Vec<StationBatch>>)
    ensures
        final(table).wf(),
        final(table).runs() == extracted(old(table).runs()).0,
        match batch {
            Some(batch) => batch@.len() > 0 && runs_of(batch@) == extracted(old(table).runs()).1,
            None => old(table).runs().len() == 0,
        },
{
    let batch = table.extract();
    if batch.len() == 0 {
        None
    } else {
        Some(batch)
    }
}

/// What follows an offer: a full queue is waited for, with the batch kept;
/// a queue without receiver ends the cycle, and the batch with it.
pub fn after_offer(outcome: Offer) -> (next: AfterOffer)
    ensures
        match outcome {
            Offer::Accepted => next is Done,
            Offer::Full(batch) => next == (AfterOffer::Wait {
                batch,
                timeout_secs: SEND_TIMEOUT_SECS,
            }),
            Offer::Closed(_) => next is Done,
        },
{
    match outcome {
        Offer::Accepted => AfterOffer::Done,
        Offer::Full(batch) => AfterOffer::Wait { batch, timeout_secs: SEND_TIMEOUT_SECS },
        Offer::Closed(_) => AfterOffer::Done,
    }
}

/// What follows a wait: a batch that the queue did not take goes back into
/// the buffer, behind what was buffered since, so that nothing is lost.
pub fn after_wait(table: &mut MemTable, outcome: Wait)
    requires
        old(table).wf(),
    ensures
        final(table).wf(),
        final(table).runs() == match returned(outcome) {
            Some(batch) => merged(old(table).runs(), runs_of(batch)),
            None => old(table).runs(),
        },
{
    match outcome {
        Wait::Sent => {},
        Wait::TimedOut(batch) => {
            table.merge_back(batch);
        },
        Wait::Closed(batch) => {
            table.merge_back(batch);
        },
    }
}

// ---------------------------------------------------------------------------
// Worker
// ---------------------------------------------------------------------------

/// Where the worker stands.
#[derive(Debug, Clone, Copy, PartialEq, Eq, Structural)]
pub enum WorkerState {
    /// It waits for the shutdown signal or the next batch, whichever comes
    /// first; the signal goes first where both are there.
    Running,
    /// The signal came: it takes what the queue holds, without waiting.
    Draining,
    /// It is done.
    Stopped,
}

/// What the worker is told.
#[derive(Debug, PartialEq, Eq)]
pub enum WorkerEvent {
    /// The shutdown signal came.
    Shutdown,
    /// The queue handed out a batch.
    Batch(Vec<StationBatch>),
    /// The queue holds nothing.
    QueueEmpty,
}

/// What the worker does next.
#[derive(Debug, PartialEq, Eq)]
pub enum WorkerAction {
    /// Write one chunk for each station of the batch, then go on as the new
    /// state says.
    Flush { batch: Vec<StationBatch>, kind: FlushKind },
    /// Go on as the new state says.
    Continue,
    /// Leave the loop.
    Stop,
}

/// The state that follows `state` on `event`.
pub open spec fn next_state(state: WorkerState, event: WorkerEvent) -> WorkerState {
    match (state, event) {
        (WorkerState::Running, WorkerEvent::Shutdown) => WorkerState::Draining,
        (WorkerState::Running, _) => WorkerState::Running,
        (WorkerState::Draining, WorkerEvent::Batch(_)) => WorkerState::Draining,
        (WorkerState::Draining, _) => WorkerState::Stopped,
        (WorkerState::Stopped, _) => WorkerState::Stopped,
    }
}

/// What the worker does in `state` on `event`.
pub open spec fn next_action(state: WorkerState, event: WorkerEvent) -> WorkerAction {
    match (state, event) {
        (WorkerState::Running, WorkerEvent::Batch(batch)) => WorkerAction::Flush {
            batch,
            kind: FlushKind::Periodic,
        },
        (WorkerState::Running, _) => WorkerAction::Continue,
        (WorkerState::Draining, WorkerEvent::Batch(batch)) => WorkerAction::Flush {
            batch,
            kind: FlushKind::Shutdown,
        },
        (WorkerState::Draining, _) => WorkerAction::Stop,
        (WorkerState::Stopped, _) => WorkerAction::Stop,
    }
}

/// One step of the worker. A batch is never dropped but by a worker that has
/// stopped: while it runs it writes the batch as a periodic flush, while it
/// drains as a shutdown flush.
pub fn worker_step(state: WorkerState, event: WorkerEvent) -> (next: (WorkerState, WorkerAction))
    ensures
        next.0 == next_state(state, event),
        next.1 == next_action(state, event),
{
    match state {
        WorkerState::Running => match event {
            WorkerEvent::Shutdown => (WorkerState::Draining, WorkerAction::Continue),
            WorkerEvent::Batch(batch) => (
                WorkerState::Running,
                WorkerAction::Flush { batch, kind: FlushKind::Periodic },
            ),
            WorkerEvent::QueueEmpty => (WorkerState::Running, WorkerAction::Continue),
        },
        WorkerState::Draining => match event {
            WorkerEvent::Batch(batch) => (
                WorkerState::Draining,
                WorkerAction::Flush { batch, kind: FlushKind::Shutdown },
            ),
            _ => (WorkerState::Stopped, WorkerAction::Stop),
        },
        WorkerState::Stopped => (WorkerState::Stopped, WorkerAction::Stop),
    }
}

// ---------------------------------------------------------------------------
// Lemmas
// ---------------------------------------------------------------------------

/// A tick that follows a tick, with nothing inserted in between, finds
/// nothing to flush.
pub proof fn lemma_second_tick_is_idle(runs: Runs)
    ensures
        extracted(extracted(runs).0).1.len() == 0,
{
}

/// Once the signal came, the worker stops when the queue is empty, and not
/// before.
pub proof fn lemma_drain_then_stop(event: WorkerEvent)
    ensures
        next_state(WorkerState::Draining, event) == WorkerState::Stopped <==> !(event is Batch),
        next_state(WorkerState::Running, event) != WorkerState::Stopped,
{
}

} // verus!
