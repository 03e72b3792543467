use skypulsedb::storage::chunk_store::{
    chunk_file_name_of, is_chunk_of, read_records, ChunkFile,
};
use skypulsedb::storage::memtable::{Observation, StationBatch};
use skypulsedb::storage::records::{
    frame_record, frame_records, keep_parsed, reversed, split_segments,
};
use skypulsedb::storage::text::{decimal_string, starts_with};
use skypulsedb::storage::wal::is_blank_line;
use skypulsedb::storage::{ChunkStore, MemTable, WAL};

fn reading(station: &str, time: &str, temp: Option<f64>) -> Observation {
    Observation {
        station_id: station.to_string(),
        time: time.to_string(),
        temp: temp.map(f64::to_bits),
        humidity: None,
        pressure: None,
        wind_speed: None,
        wind_dir: Some(270),
    }
}

fn json_of(obs: &Observation) -> Vec<u8> {
    let mut fields = serde_json::Map::new();
    fields.insert("station_id".to_string(), serde_json::Value::from(obs.station_id.clone()));
    fields.insert("time".to_string(), serde_json::Value::from(obs.time.clone()));
    fields.insert("temp".to_string(), serde_json::Value::from(obs.temp.map(f64::from_bits)));
    fields.insert("wind_dir".to_string(), serde_json::Value::from(obs.wind_dir));
    serde_json::to_vec(&serde_json::Value::Object(fields)).unwrap()
}

fn parse(line: &[u8]) -> Option<Observation> {
    let value: serde_json::Value = serde_json::from_slice(line).ok()?;
    Some(Observation {
        station_id: value.get("station_id")?.as_str()?.to_string(),
        time: value.get("time")?.as_str()?.to_string(),
        temp: value.get("temp").and_then(|v| v.as_f64()).map(f64::to_bits),
        humidity: None,
        pressure: None,
        wind_speed: None,
        wind_dir: value.get("wind_dir").and_then(|v| v.as_u64()).map(|d| d as u16),
    })
}

#[test]
fn memtable_starts_empty() {
    let mut table = MemTable::new();
    assert!(table.is_empty());
    assert!(table.extract().is_empty());
}

#[test]
fn memtable_extract_twice_gives_nothing_the_second_time() {
    let mut table = MemTable::new();
    table.insert(reading("a", "1", Some(1.5)));
    table.insert(reading("b", "2", None));
    let first = table.extract();
    assert_eq!(first.len(), 2);
    assert!(table.is_empty());
    let second = table.extract();
    assert!(second.is_empty());
}

#[test]
fn memtable_keeps_arrival_order_within_a_station() {
    let o1 = reading("stationA", "1", Some(20.0));
    let o2 = reading("stationA", "2", Some(-0.0));
    let mut table = MemTable::new();
    table.insert(o1.clone());
    table.insert(o2.clone());
    let batch = table.extract();
    assert_eq!(
        batch,
        vec![StationBatch { station_id: "stationA".to_string(), observations: vec![o1, o2] }]
    );
}

#[test]
fn memtable_groups_by_station_in_order_of_first_arrival() {
    let a1 = reading("a", "1", None);
    let b1 = reading("b", "2", None);
    let a2 = reading("a", "3", None);
    let c1 = reading("c", "4", None);
    let b2 = reading("b", "5", None);
    let mut table = MemTable::new();
    for o in [&a1, &b1, &a2, &c1, &b2] {
        table.insert(o.clone());
    }
    assert!(!table.is_empty());
    let batch = table.extract();
    assert_eq!(
        batch,
        vec![
            StationBatch { station_id: "a".to_string(), observations: vec![a1, a2] },
            StationBatch { station_id: "b".to_string(), observations: vec![b1, b2] },
            StationBatch { station_id: "c".to_string(), observations: vec![c1] },
        ]
    );
}

#[test]
fn memtable_can_be_read_without_taking_it_out() {
    let mut table = MemTable::default();
    assert!(table.entries().is_empty());
    table.insert(reading("a", "1", None));
    table.insert(reading("a", "2", None));
    assert_eq!(table.entries().len(), 1);
    assert_eq!(table.entries()[0].station_id, "a");
    assert_eq!(table.entries()[0].observations, vec![reading("a", "1", None), reading("a", "2", None)]);
    assert!(!table.is_empty());
}

#[test]
fn memtable_flush_drops_everything() {
    let mut table = MemTable::new();
    table.insert(reading("a", "1", None));
    table.flush();
    assert!(table.is_empty());
    assert!(table.extract().is_empty());
}

#[test]
fn memtable_merge_back_goes_behind_what_came_since() {
    let a1 = reading("a", "1", None);
    let b1 = reading("b", "2", None);
    let a2 = reading("a", "3", None);
    let c1 = reading("c", "4", None);
    let mut table = MemTable::new();
    table.insert(a1.clone());
    table.insert(b1.clone());
    let batch = table.extract();
    table.insert(a2.clone());
    table.insert(c1.clone());
    table.merge_back(batch);
    assert_eq!(
        table.extract(),
        vec![
            StationBatch { station_id: "a".to_string(), observations: vec![a2, a1] },
            StationBatch { station_id: "c".to_string(), observations: vec![c1] },
            StationBatch { station_id: "b".to_string(), observations: vec![b1] },
        ]
    );
}

#[test]
fn memtable_merge_back_into_empty_table_restores_the_batch() {
    let mut table = MemTable::new();
    table.insert(reading("a", "1", None));
    table.insert(reading("b", "2", None));
    table.insert(reading("a", "3", None));
    let batch = table.extract();
    table.merge_back(batch.clone());
    assert_eq!(table.extract(), batch);
    table.merge_back(Vec::new());
    assert!(table.is_empty());
}

#[test]
fn memtable_station_names_are_compared_whole() {
    let mut table = MemTable::new();
    table.insert(reading("st", "1", None));
    table.insert(reading("st1", "2", None));
    table.insert(reading("", "3", None));
    table.insert(reading("st", "4", None));
    let batch = table.extract();
    assert_eq!(batch.len(), 3);
    assert_eq!(batch[0].observations.len(), 2);
    assert_eq!(batch[2].station_id, "");
}

#[test]
fn records_are_framed_one_per_line() {
    assert_eq!(frame_record(b"abc"), b"abc\n".to_vec());
    assert_eq!(frame_record(b""), b"\n".to_vec());
    let records = vec![b"{\"a\":1}".to_vec(), b"x".to_vec()];
    assert_eq!(frame_records(&records), b"{\"a\":1}\nx\n".to_vec());
    assert!(frame_records(&Vec::new()).is_empty());
}

#[test]
fn segments_are_the_pieces_between_line_feeds() {
    assert_eq!(split_segments(b""), vec![Vec::<u8>::new()]);
    assert_eq!(split_segments(b"ab"), vec![b"ab".to_vec()]);
    assert_eq!(split_segments(b"ab\n"), vec![b"ab".to_vec(), Vec::new()]);
    assert_eq!(
        split_segments(b"\na\n\nbc"),
        vec![Vec::new(), b"a".to_vec(), Vec::new(), b"bc".to_vec()]
    );
}

#[test]
fn reversed_turns_the_order_round() {
    assert_eq!(reversed(vec![1, 2, 3]), vec![3, 2, 1]);
    assert_eq!(reversed(Vec::<u8>::new()), Vec::<u8>::new());
}

#[test]
fn keep_parsed_drops_failures_and_keeps_order() {
    assert_eq!(keep_parsed(vec![Some(1), None, Some(2), None]), vec![1, 2]);
    assert_eq!(keep_parsed(vec![None::<u8>, None]), Vec::<u8>::new());
    assert_eq!(keep_parsed(Vec::<Option<u8>>::new()), Vec::<u8>::new());
}

#[test]
fn wal_append_adds_a_line() {
    let wal = WAL::open("data/wal.log".to_string());
    assert_eq!(wal.path(), "data/wal.log");
    assert_eq!(wal.append(b"{\"x\":1}"), b"{\"x\":1}\n".to_vec());
}

#[test]
fn wal_replay_skips_the_malformed_line() {
    let first = reading("stationA", "2024-01-01T00:00:00Z", Some(21.5));
    let second = reading("stationB", "2024-01-01T00:00:05Z", None);
    let wal = WAL::open("wal.log".to_string());
    let mut file = Vec::new();
    file.extend(wal.append(&json_of(&first)));
    file.extend(wal.append(b"{not a record"));
    file.extend(wal.append(&json_of(&second)));
    let lines = wal.replay(&file);
    assert_eq!(lines.len(), 3);
    let replayed = keep_parsed(lines.iter().map(|l| parse(l)).collect());
    assert_eq!(replayed, vec![first, second]);
}

#[test]
fn wal_replay_leaves_out_blank_lines() {
    let wal = WAL::open("wal.log".to_string());
    let lines = wal.replay(b"\n  \t\na\r\n\r\nb \n\x0b\x0c\nc\r");
    assert_eq!(lines, vec![b"a".to_vec(), b"b ".to_vec(), b"c\r".to_vec()]);
    assert!(wal.replay(b"").is_empty());
    assert!(wal.replay(b"\n\n").is_empty());
    assert_eq!(wal.replay(b"last"), vec![b"last".to_vec()]);
}

#[test]
fn wal_replay_reads_what_was_appended_in_order() {
    let wal = WAL::open("wal.log".to_string());
    let records: Vec<Vec<u8>> = (0..50).map(|i| format!("{{\"n\":{}}}", i).into_bytes()).collect();
    let mut file = Vec::new();
    for r in &records {
        file.extend(wal.append(r));
    }
    assert_eq!(wal.replay(&file), records);
}

#[test]
fn blank_lines_hold_white_space_only() {
    assert!(is_blank_line(b""));
    assert!(is_blank_line(b" \t\r\x0b\x0c\n"));
    assert!(!is_blank_line(b"  x "));
    assert!(!is_blank_line(&[0x08]));
    assert!(!is_blank_line(&[0x0e]));
    assert!(!is_blank_line("\u{a0}".as_bytes()));
}

#[test]
fn chunk_files_are_named_after_station_and_chunk() {
    assert_eq!(chunk_file_name_of("stationA", "2024"), "stationA-2024.ndjson");
    assert_eq!(chunk_file_name_of("", ""), "-.ndjson");
    assert_eq!(chunk_file_name_of("köln", "flush-17"), "köln-flush-17.ndjson");
}

#[test]
fn chunk_of_station_is_told_by_the_prefix() {
    assert!(is_chunk_of("stationA-2024.ndjson", "stationA"));
    assert!(is_chunk_of("stationA-", "stationA"));
    assert!(!is_chunk_of("stationA", "stationA"));
    assert!(!is_chunk_of("stationAB-2024.ndjson", "stationA"));
    assert!(!is_chunk_of("stationB-2024.ndjson", "stationA"));
    assert!(!is_chunk_of("xstationA-2024.ndjson", "stationA"));
    assert!(is_chunk_of("st-1-2024.ndjson", "st"));
    assert!(is_chunk_of("st-1-2024.ndjson", "st-1"));
    assert!(is_chunk_of("-x", ""));
    assert!(!is_chunk_of("", ""));
    assert!(is_chunk_of("köln-1.ndjson", "köln"));
    assert!(!is_chunk_of("köln-1.ndjson", "kö"));
}

#[test]
fn starts_with_compares_whole_characters() {
    assert!(starts_with("abc", ""));
    assert!(starts_with("abc", "ab"));
    assert!(starts_with("abc", "abc"));
    assert!(!starts_with("abc", "abcd"));
    assert!(!starts_with("abc", "b"));
    assert!(starts_with("é", "é"));
    assert!(!starts_with("é", "e"));
}

#[test]
fn chunk_store_lies_inside_the_data_directory() {
    let store = ChunkStore::new("data");
    assert_eq!(store.dir(), "data/chunks");
    assert_eq!(store.chunk_path("a-1.ndjson"), "data/chunks/a-1.ndjson");
}

#[test]
fn chunk_write_then_read_gives_the_records_back() {
    let obs = vec![
        reading("stationA", "2024-01-01T00:00:00Z", Some(21.5)),
        reading("stationA", "2024-01-01T00:00:05Z", Some(-3.25)),
        reading("stationA", "2024-01-01T00:00:10Z", None),
    ];
    let records: Vec<Vec<u8>> = obs.iter().map(json_of).collect();
    let store = ChunkStore::new("data");
    let file = store.write_chunk("stationA", "2024", &records);
    assert_eq!(file.name, "stationA-2024.ndjson");
    let lines = store.read_chunks("stationA", &vec![file]);
    assert_eq!(lines, records);
    let read: Vec<Observation> = keep_parsed(lines.iter().map(|l| parse(l)).collect());
    assert_eq!(read, obs);
}

#[test]
fn chunk_contents_hold_one_record_per_line() {
    let store = ChunkStore::new("d");
    let file = store.write_chunk("s", "c", &vec![b"one".to_vec(), b"two".to_vec()]);
    assert_eq!(file.contents, b"one\ntwo\n".to_vec());
    let empty = store.write_chunk("s", "c", &Vec::new());
    assert!(empty.contents.is_empty());
}

#[test]
fn chunk_read_passes_over_other_stations_and_empty_lines() {
    let store = ChunkStore::new("d");
    let files = vec![
        ChunkFile { name: "a-1.ndjson".to_string(), contents: b"r1\n\nr2\n".to_vec() },
        ChunkFile { name: "b-1.ndjson".to_string(), contents: b"other\n".to_vec() },
        ChunkFile { name: "ab-1.ndjson".to_string(), contents: b"other\n".to_vec() },
        ChunkFile { name: "a-2.ndjson".to_string(), contents: b"r3".to_vec() },
        ChunkFile { name: "a-3.ndjson".to_string(), contents: Vec::new() },
    ];
    assert_eq!(
        store.read_chunks("a", &files),
        vec![b"r1".to_vec(), b"r2".to_vec(), b"r3".to_vec()]
    );
    assert!(store.read_chunks("c", &files).is_empty());
}

#[test]
fn chunk_records_keep_carriage_returns_and_spaces() {
    assert_eq!(read_records(b" \nx\r\n"), vec![b" ".to_vec(), b"x\r".to_vec()]);
    assert!(read_records(b"\n\n").is_empty());
}

#[test]
fn chunk_list_gives_the_paths_of_the_stations_files() {
    let store = ChunkStore::new("data");
    let names = vec![
        "a-1.ndjson".to_string(),
        "b-1.ndjson".to_string(),
        "a-shutdown.ndjson".to_string(),
        "a".to_string(),
    ];
    assert_eq!(
        store.list_chunks("a", &names),
        vec!["data/chunks/a-1.ndjson".to_string(), "data/chunks/a-shutdown.ndjson".to_string()]
    );
    assert!(store.list_chunks("c", &names).is_empty());
}

#[test]
fn decimal_digits_of_numbers() {
    assert_eq!(decimal_string(0), "0");
    assert_eq!(decimal_string(7), "7");
    assert_eq!(decimal_string(10), "10");
    assert_eq!(decimal_string(1_700_000_009), "1700000009");
    assert_eq!(decimal_string(u64::MAX), "18446744073709551615");
    for n in [99u64, 100, 101, 12_345_678_901_234_567_890] {
        assert_eq!(decimal_string(n), n.to_string());
    }
}
