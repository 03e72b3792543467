use skypulsedb::flush::{
    after_offer, after_wait, chunk_name, scheduler_tick, worker_step, AfterOffer, FlushKind, Offer,
    Wait, WorkerAction, WorkerEvent, WorkerState, FLUSH_INTERVAL_SECS, QUEUE_CAPACITY,
    SEND_TIMEOUT_SECS,
};
use skypulsedb::ingest::WriteRequest;
use skypulsedb::storage::memtable::{MemTable, Observation, StationBatch};

fn obs(station: &str, time: &str) -> Observation {
    Observation {
        station_id: station.to_string(),
        time: time.to_string(),
        temp: Some(12.5f64.to_bits()),
        humidity: None,
        pressure: None,
        wind_speed: None,
        wind_dir: None,
    }
}

fn batch_of(station: &str) -> Vec<StationBatch> {
    vec![StationBatch { station_id: station.to_string(), observations: vec![obs(station, "t")] }]
}

#[test]
fn pipeline_limits() {
    assert_eq!(QUEUE_CAPACITY, 2);
    assert_eq!(FLUSH_INTERVAL_SECS, 5);
    assert_eq!(SEND_TIMEOUT_SECS, 2);
}

#[test]
fn chunk_names_tell_the_kind_of_flush() {
    assert_eq!(chunk_name(FlushKind::Periodic, Some(1_700_000_000)), "flush-1700000000");
    assert_eq!(chunk_name(FlushKind::Periodic, None), "flush-0");
    assert_eq!(chunk_name(FlushKind::Shutdown, Some(1_700_000_000)), "shutdown");
    assert_eq!(chunk_name(FlushKind::Shutdown, None), "shutdown");
    assert_eq!(chunk_name(FlushKind::Direct, Some(42)), "42");
    assert_eq!(chunk_name(FlushKind::Direct, None), "0");
}

#[test]
fn scheduler_skips_an_empty_buffer() {
    let mut table = MemTable::new();
    assert_eq!(scheduler_tick(&mut table), None);
    assert!(table.is_empty());
}

#[test]
fn scheduler_takes_the_whole_buffer() {
    let mut table = MemTable::new();
    table.insert(obs("a", "1"));
    table.insert(obs("b", "2"));
    table.insert(obs("a", "3"));
    let batch = scheduler_tick(&mut table).unwrap();
    assert!(table.is_empty());
    assert_eq!(
        batch,
        vec![
            StationBatch {
                station_id: "a".to_string(),
                observations: vec![obs("a", "1"), obs("a", "3")]
            },
            StationBatch { station_id: "b".to_string(), observations: vec![obs("b", "2")] },
        ]
    );
    assert_eq!(scheduler_tick(&mut table), None);
}

#[test]
fn scheduler_waits_for_a_full_queue_only() {
    assert_eq!(after_offer(Offer::Accepted), AfterOffer::Done);
    assert_eq!(
        after_offer(Offer::Full(batch_of("a"))),
        AfterOffer::Wait { batch: batch_of("a"), timeout_secs: 2 }
    );
    assert_eq!(after_offer(Offer::Closed(batch_of("a"))), AfterOffer::Done);
}

#[test]
fn scheduler_puts_back_what_the_queue_did_not_take() {
    let mut table = MemTable::new();
    table.insert(obs("a", "new"));
    after_wait(&mut table, Wait::Sent);
    after_wait(&mut table, Wait::TimedOut(batch_of("a")));
    after_wait(&mut table, Wait::Closed(batch_of("b")));
    assert_eq!(
        table.extract(),
        vec![
            StationBatch {
                station_id: "a".to_string(),
                observations: vec![obs("a", "new"), obs("a", "t")]
            },
            StationBatch { station_id: "b".to_string(), observations: vec![obs("b", "t")] },
        ]
    );
}

#[test]
fn worker_flushes_while_it_runs() {
    assert_eq!(
        worker_step(WorkerState::Running, WorkerEvent::Batch(batch_of("a"))),
        (
            WorkerState::Running,
            WorkerAction::Flush { batch: batch_of("a"), kind: FlushKind::Periodic }
        )
    );
    assert_eq!(
        worker_step(WorkerState::Running, WorkerEvent::QueueEmpty),
        (WorkerState::Running, WorkerAction::Continue)
    );
}

#[test]
fn worker_drains_the_queue_before_it_stops() {
    assert_eq!(
        worker_step(WorkerState::Running, WorkerEvent::Shutdown),
        (WorkerState::Draining, WorkerAction::Continue)
    );
    assert_eq!(
        worker_step(WorkerState::Draining, WorkerEvent::Batch(batch_of("a"))),
        (
            WorkerState::Draining,
            WorkerAction::Flush { batch: batch_of("a"), kind: FlushKind::Shutdown }
        )
    );
    assert_eq!(
        worker_step(WorkerState::Draining, WorkerEvent::QueueEmpty),
        (WorkerState::Stopped, WorkerAction::Stop)
    );
    assert_eq!(
        worker_step(WorkerState::Draining, WorkerEvent::Shutdown),
        (WorkerState::Stopped, WorkerAction::Stop)
    );
    assert_eq!(
        worker_step(WorkerState::Stopped, WorkerEvent::Batch(batch_of("a"))),
        (WorkerState::Stopped, WorkerAction::Stop)
    );
}

#[test]
fn write_request_becomes_a_reading_field_by_field() {
    let request = WriteRequest {
        station_id: "stationA".to_string(),
        time: "2024-01-01T00:00:00Z".to_string(),
        temp: Some(21.5f64.to_bits()),
        humidity: Some(0.4f64.to_bits()),
        pressure: None,
        wind_speed: Some((-0.0f64).to_bits()),
        wind_dir: Some(359),
    };
    assert_eq!(
        request.into_observation(),
        Observation {
            station_id: "stationA".to_string(),
            time: "2024-01-01T00:00:00Z".to_string(),
            temp: Some(21.5f64.to_bits()),
            humidity: Some(0.4f64.to_bits()),
            pressure: None,
            wind_speed: Some((-0.0f64).to_bits()),
            wind_dir: Some(359),
        }
    );
}
