use std::collections::BTreeMap;

use ashta::event::{Event, EventKind};
use ashta::log_writer::{index_path, parse_segment_name, segment_name, segment_path, AppendStep, LogWriter};
use ashta::query::{QueryEngine, SegmentStore};
use ashta::replay::{ReplayConfig, ReplayError};
use ashta::segment::{SegmentReader, SegmentWriter};
use ashta::symbol::SymbolId;

// ── an in-memory log directory driven by `LogWriter` ─────────────────────────

/// The files a `LogWriter` produces, kept in memory: one byte vector per
/// segment and the last index file written.
struct MemLog {
    writer: LogWriter,
    segments: BTreeMap<u32, Vec<u8>>,
    index_file: Option<Vec<u8>>,
}

impl MemLog {
    fn open() -> MemLog {
        MemLog::reopen(BTreeMap::new(), None)
    }

    fn reopen(segments: BTreeMap<u32, Vec<u8>>, index_file: Option<Vec<u8>>) -> MemLog {
        let names: Vec<String> = segments.keys().map(|id| segment_name(*id)).collect();
        let last = segments.keys().max().copied().unwrap_or(0);
        let current_len = segments.get(&last).map(|d| d.len() as u64).unwrap_or(0);
        let writer = LogWriter::open("log".to_string(), &names, current_len, index_file.as_deref()).unwrap();
        let mut segments = segments;
        segments.entry(writer.current_segment_id()).or_default();
        MemLog { writer, segments, index_file }
    }

    /// Appends `e`; `false` when the writer refuses it as out of order.
    fn append(&mut self, e: &Event) -> bool {
        loop {
            match self.writer.append(e) {
                AppendStep::Record(bytes) => {
                    let id = self.writer.current_segment_id();
                    self.segments.entry(id).or_default().extend_from_slice(&bytes);
                    return true;
                }
                AppendStep::Rotate => self.rotate(),
                AppendStep::OutOfOrder => return false,
            }
        }
    }

    fn rotate(&mut self) {
        let rotation = self.writer.rotate(0);
        self.index_file = Some(rotation.index_bytes);
        self.segments.entry(self.writer.current_segment_id()).or_default();
    }

    fn store(&self) -> SegmentStore {
        let mut store = SegmentStore::new();
        for (id, data) in &self.segments {
            store.insert(*id, data.clone());
        }
        store
    }

    fn names(&self) -> Vec<String> {
        self.segments.keys().map(|id| segment_name(*id)).collect()
    }

    fn engine(&self) -> QueryEngine {
        QueryEngine::open("log".to_string(), self.index_file.as_deref()).unwrap()
    }

    fn replay(&self, config: ReplayConfig) -> Result<Vec<Event>, ReplayError> {
        let iter = config.open(self.index_file.as_deref(), &self.names(), &self.store())?;
        Ok(iter.collect())
    }
}

fn make_event(ts: u64, symbol: &str, price: f64, volume: f64) -> Event {
    Event {
        timestamp_ns: ts,
        symbol: SymbolId::from(symbol),
        price_bits: price.to_bits(),
        volume_bits: volume.to_bits(),
        kind: EventKind::Trade,
        _pad: [0; 7],
    }
}

fn price(e: &Event) -> f64 {
    f64::from_bits(e.price_bits)
}

fn write_log(events: &[Event]) -> MemLog {
    let mut log = MemLog::open();
    for e in events {
        log.append(e);
    }
    log.rotate();
    log
}

// ── segments ─────────────────────────────────────────────────────────────────

#[test]
fn write_then_read_roundtrip() {
    let mut writer = SegmentWriter::open("segment_0000.alog".to_string(), 0);
    let mut file: Vec<u8> = Vec::new();
    file.extend(writer.write_event(&make_event(1_000, "BTC/USD", 60_000.0, 1.5)).unwrap());
    file.extend(writer.write_event(&make_event(2_000, "BTC/USD", 60_001.0, 0.3)).unwrap());
    file.extend(writer.write_event(&make_event(3_000, "ETH/USD", 3_000.0, 10.0)).unwrap());

    assert_eq!(writer.event_count(), 3);
    assert_eq!(writer.bytes_written(), 120);

    let _sealed = writer.seal();

    let reader = SegmentReader::new(file);
    assert_eq!(reader.event_count(), 3);

    let events: Vec<Event> = reader.collect();
    assert_eq!(events[0].timestamp_ns, 1_000);
    assert_eq!(events[0].symbol, SymbolId::from("BTC/USD"));
    assert_eq!(price(&events[0]), 60_000.0);

    assert_eq!(events[2].timestamp_ns, 3_000);
    assert_eq!(events[2].symbol, SymbolId::from("ETH/USD"));
}

#[test]
fn sealed_segment_rejects_writes() {
    let mut writer = SegmentWriter::open("segment_0000.alog".to_string(), 0);
    writer.write_event(&make_event(1_000, "AAPL", 200.0, 50.0)).unwrap();
    let sealed = writer.seal();
    assert_eq!(sealed.event_count, 1);
    assert_eq!(sealed.path, "segment_0000.alog");
}

#[test]
fn reopened_segment_counts_existing_events() {
    let writer = SegmentWriter::open("s".to_string(), 200);
    assert_eq!(writer.event_count(), 5);
    assert_eq!(writer.bytes_written(), 200);
    assert!(!writer.is_full());
    let full = SegmentWriter::open("s".to_string(), ashta::segment::SEGMENT_MAX_BYTES);
    assert!(full.is_full());
}

#[test]
fn reader_skips_trailing_partial_record() {
    let mut data = make_event(7, "A", 1.0, 1.0).to_bytes();
    data.extend_from_slice(&[1, 2, 3]);
    let reader = SegmentReader::new(data);
    assert_eq!(reader.event_count(), 1);
    let events = reader.collect();
    assert_eq!(events.len(), 1);
    assert_eq!(events[0].timestamp_ns, 7);
}

// ── log writer ───────────────────────────────────────────────────────────────

#[test]
fn open_empty_dir_creates_segment_0000() {
    let log = MemLog::open();
    assert_eq!(log.writer.current_segment_id(), 0);
    assert_eq!(log.writer.current_event_count(), 0);
    assert_eq!(log.writer.current_path().as_str(), "log/segment_0000.alog");
    assert_eq!(log.names(), vec!["segment_0000.alog".to_string()]);
}

#[test]
fn append_events_and_read_back() {
    let mut log = MemLog::open();

    log.append(&make_event(1_000, "BTC/USD", 100.0, 1.0));
    log.append(&make_event(2_000, "ETH/USD", 100.0, 1.0));
    log.append(&make_event(3_000, "BTC/USD", 100.0, 1.0));

    assert_eq!(log.writer.current_event_count(), 3);
    assert_eq!(log.writer.current_segment_id(), 0);

    log.rotate();
    assert_eq!(log.writer.current_segment_id(), 1);
    assert_eq!(log.writer.sealed_segments().len(), 1);

    let sealed_path = &log.writer.sealed_segments()[0].path;
    assert_eq!(sealed_path.as_str(), "log/segment_0000.alog");
    let reader = SegmentReader::new(log.segments[&0].clone());
    let events: Vec<Event> = reader.collect();

    assert_eq!(events.len(), 3);
    assert_eq!(events[0].timestamp_ns, 1_000);
    assert_eq!(events[1].symbol, SymbolId::from("ETH/USD"));
    assert_eq!(events[2].timestamp_ns, 3_000);
}

#[test]
fn reopen_resumes_on_last_segment() {
    let (segments, index_file) = {
        let mut log = MemLog::open();
        log.append(&make_event(1_000, "AAPL", 100.0, 1.0));
        log.append(&make_event(2_000, "AAPL", 100.0, 1.0));
        log.rotate();
        log.append(&make_event(3_000, "AAPL", 100.0, 1.0));
        (log.segments, log.index_file)
    };

    let log2 = MemLog::reopen(segments, index_file);
    assert_eq!(log2.writer.current_segment_id(), 1);
    assert_eq!(log2.writer.current_event_count(), 1);
}

#[test]
fn index_updated_on_append_and_survives_reload() {
    let btc = SymbolId::from("BTC/USD");
    let eth = SymbolId::from("ETH/USD");

    let (segments, index_file) = {
        let mut log = MemLog::open();
        log.append(&make_event(1_000, "BTC/USD", 100.0, 1.0));
        log.append(&make_event(5_000, "ETH/USD", 100.0, 1.0));
        log.append(&make_event(9_000, "BTC/USD", 100.0, 1.0));
        log.rotate();

        let idx = log.writer.index();
        assert_eq!(idx.query(btc, 0, 100_000), vec![0]);
        assert_eq!(idx.query(eth, 0, 100_000), vec![0]);
        (log.segments, log.index_file)
    };

    let log2 = MemLog::reopen(segments, index_file);
    let idx = log2.writer.index();

    assert_eq!(idx.query(btc, 0, 100_000), vec![0]);
    assert_eq!(idx.query(eth, 0, 100_000), vec![0]);
    assert!(idx.query(btc, 100_000, 200_000).is_empty());
}

#[test]
fn parse_segment_name_works() {
    assert_eq!(parse_segment_name("segment_0000.alog"), Some(0));
    assert_eq!(parse_segment_name("segment_0042.alog"), Some(42));
    assert_eq!(parse_segment_name("not_a_segment.txt"), None);
    assert_eq!(parse_segment_name("segment_abc.alog"), None);
}

#[test]
fn segment_names_roundtrip() {
    assert_eq!(segment_name(0), "segment_0000.alog");
    assert_eq!(segment_name(42), "segment_0042.alog");
    assert_eq!(segment_name(123_456), "segment_123456.alog");
    for id in [0u32, 7, 9_999, 10_000, u32::MAX] {
        assert_eq!(parse_segment_name(&segment_name(id)), Some(id));
    }
}

#[test]
fn last_segment_id_is_the_largest_named() {
    let names = vec![
        "index.bin".to_string(),
        "segment_0002.alog".to_string(),
        "segment_0010.alog".to_string(),
        "segment_0001.alog".to_string(),
    ];
    assert_eq!(ashta::log_writer::find_last_segment_id(&names), 10);
    assert_eq!(ashta::log_writer::find_last_segment_id(&vec![]), 0);
}

#[test]
fn open_refuses_a_corrupt_index_file() {
    let names: Vec<String> = Vec::new();
    let bad = vec![0u8; 41];
    assert!(LogWriter::open("log".to_string(), &names, 0, Some(&bad)).is_err());
}

// ── range queries ────────────────────────────────────────────────────────────

#[test]
fn read_range_basic() {
    let btc = SymbolId::from("BTC/USD");
    let eth = SymbolId::from("ETH/USD");

    let log = write_log(&[
        make_event(1_000, "BTC/USD", 42.0, 1.0),
        make_event(2_000, "ETH/USD", 42.0, 1.0),
        make_event(3_000, "BTC/USD", 42.0, 1.0),
        make_event(4_000, "BTC/USD", 42.0, 1.0),
    ]);

    let engine = log.engine();
    let store = log.store();

    let events = engine.read_range(btc, 1_000, 3_000, &store);
    assert_eq!(events.len(), 2);
    assert_eq!(events[0].timestamp_ns, 1_000);
    assert_eq!(events[1].timestamp_ns, 3_000);

    let eth_events = engine.read_range(eth, 0, 10_000, &store);
    assert_eq!(eth_events.len(), 1);
    assert_eq!(eth_events[0].timestamp_ns, 2_000);
}

#[test]
fn zone_map_pruning_eliminates_out_of_range_segments() {
    let btc = SymbolId::from("BTC/USD");
    let mut log = MemLog::open();
    log.append(&make_event(1_000, "BTC/USD", 42.0, 1.0));
    log.append(&make_event(2_000, "BTC/USD", 42.0, 1.0));
    log.append(&make_event(3_000, "BTC/USD", 42.0, 1.0));
    log.rotate();
    log.append(&make_event(10_000, "BTC/USD", 42.0, 1.0));
    log.append(&make_event(11_000, "BTC/USD", 42.0, 1.0));
    log.append(&make_event(12_000, "BTC/USD", 42.0, 1.0));
    log.rotate();

    let engine = log.engine();

    let candidates = engine.index().query(btc, 10_000, 12_000);
    assert_eq!(candidates, vec![1], "segment 0 must be pruned by the zone map");

    let events = engine.read_range(btc, 10_000, 12_000, &log.store());
    assert_eq!(events.len(), 3);
    assert_eq!(events[0].timestamp_ns, 10_000);
}

#[test]
fn read_range_empty_result() {
    let log = write_log(&[make_event(1_000, "ETH/USD", 42.0, 1.0)]);
    let engine = log.engine();
    let btc = SymbolId::from("BTC/USD");
    let events = engine.read_range(btc, 0, 100_000, &log.store());
    assert!(events.is_empty());
}

#[test]
fn read_range_spans_multiple_segments() {
    let btc = SymbolId::from("BTC/USD");
    let mut log = MemLog::open();
    log.append(&make_event(100, "BTC/USD", 42.0, 1.0));
    log.append(&make_event(200, "BTC/USD", 42.0, 1.0));
    log.rotate();
    log.append(&make_event(300, "BTC/USD", 42.0, 1.0));
    log.append(&make_event(400, "BTC/USD", 42.0, 1.0));
    log.rotate();
    log.append(&make_event(500, "BTC/USD", 42.0, 1.0));
    log.append(&make_event(600, "BTC/USD", 42.0, 1.0));
    log.rotate();

    let engine = log.engine();
    let events = engine.read_range(btc, 150, 450, &log.store());
    let ts: Vec<u64> = events.iter().map(|e| e.timestamp_ns).collect();
    assert_eq!(ts, vec![200, 300, 400]);
}

#[test]
fn read_range_without_index_file_finds_nothing() {
    let log = write_log(&[make_event(1_000, "BTC/USD", 42.0, 1.0)]);
    let engine = QueryEngine::open("log".to_string(), None).unwrap();
    assert!(engine.index().is_empty());
    assert!(engine.read_range(SymbolId::from("BTC/USD"), 0, u64::MAX, &log.store()).is_empty());
    assert_eq!(engine.segment_path(3).as_str(), "log/segment_0003.alog");
}

#[test]
fn read_range_skips_segments_missing_from_the_store() {
    let btc = SymbolId::from("BTC/USD");
    let mut log = MemLog::open();
    log.append(&make_event(100, "BTC/USD", 42.0, 1.0));
    log.rotate();
    log.append(&make_event(200, "BTC/USD", 42.0, 1.0));
    log.rotate();
    let engine = log.engine();
    let mut store = SegmentStore::new();
    store.insert(1, log.segments[&1].clone());
    let ts: Vec<u64> = engine.read_range(btc, 0, 1_000, &store).iter().map(|e| e.timestamp_ns).collect();
    assert_eq!(ts, vec![200]);
}

// ── replay ───────────────────────────────────────────────────────────────────

#[test]
fn replay_all_events_in_order() {
    let log = write_log(&[
        make_event(1_000, "BTCUSDT", 43000.0, 1.0),
        make_event(2_000, "ETHUSDT", 2300.0, 1.0),
        make_event(3_000, "BTCUSDT", 43100.0, 1.0),
    ]);

    let replayed = log.replay(ReplayConfig::default()).unwrap();

    assert_eq!(replayed.len(), 3);
    assert!(replayed[0].timestamp_ns <= replayed[1].timestamp_ns);
    assert!(replayed[1].timestamp_ns <= replayed[2].timestamp_ns);
}

#[test]
fn replay_filters_by_symbol() {
    let btc = SymbolId::from("BTCUSDT");
    let eth = SymbolId::from("ETHUSDT");
    let log = write_log(&[
        make_event(1_000, "BTCUSDT", 43000.0, 1.0),
        make_event(2_000, "ETHUSDT", 2300.0, 1.0),
        make_event(3_000, "BTCUSDT", 43100.0, 1.0),
        make_event(4_000, "ETHUSDT", 2310.0, 1.0),
    ]);

    let replayed = log.replay(ReplayConfig::default().with_symbol(btc)).unwrap();

    assert_eq!(replayed.len(), 2);
    assert!(replayed.iter().all(|e| e.symbol == btc));
    assert!(replayed.iter().all(|e| e.symbol != eth));
}

#[test]
fn replay_filters_by_time_range() {
    let log = write_log(&[
        make_event(1_000, "BTCUSDT", 43000.0, 1.0),
        make_event(2_000, "BTCUSDT", 43100.0, 1.0),
        make_event(3_000, "BTCUSDT", 43200.0, 1.0),
        make_event(4_000, "BTCUSDT", 43300.0, 1.0),
    ]);

    let replayed = log.replay(ReplayConfig::default().with_range(2_000, 3_000)).unwrap();

    assert_eq!(replayed.len(), 2);
    assert_eq!(replayed[0].timestamp_ns, 2_000);
    assert_eq!(replayed[1].timestamp_ns, 3_000);
}

#[test]
fn replay_combined_filter() {
    let btc = SymbolId::from("BTCUSDT");
    let log = write_log(&[
        make_event(1_000, "BTCUSDT", 43000.0, 1.0),
        make_event(2_000, "ETHUSDT", 2300.0, 1.0),
        make_event(3_000, "BTCUSDT", 43200.0, 1.0),
        make_event(4_000, "BTCUSDT", 43300.0, 1.0),
        make_event(5_000, "ETHUSDT", 2400.0, 1.0),
    ]);

    let replayed = log.replay(ReplayConfig::default().with_symbol(btc).with_range(2_000, 4_000)).unwrap();

    assert_eq!(replayed.len(), 2);
    assert!(replayed.iter().all(|e| e.symbol == btc));
    assert_eq!(replayed[0].timestamp_ns, 3_000);
    assert_eq!(replayed[1].timestamp_ns, 4_000);
}

#[test]
fn replay_empty_range_returns_nothing() {
    let log = write_log(&[
        make_event(5_000, "BTCUSDT", 43000.0, 1.0),
        make_event(6_000, "BTCUSDT", 43100.0, 1.0),
    ]);

    let replayed = log.replay(ReplayConfig::default().with_range(1_000, 2_000)).unwrap();

    assert_eq!(replayed.len(), 0);
}

#[test]
fn replay_invalid_range_returns_error() {
    let log = MemLog::open();
    let result = log.replay(ReplayConfig::default().with_range(9_000, 1_000));

    assert!(result.is_err());
    match result {
        Err(e) => assert_eq!(e, ReplayError::InvalidRange { t_start: 9_000, t_end: 1_000 }),
        Ok(_) => panic!("expected error, got Ok"),
    }
}

#[test]
fn replay_multi_symbol_filter() {
    let btc = SymbolId::from("BTCUSDT");
    let eth = SymbolId::from("ETHUSDT");
    let log = write_log(&[
        make_event(1_000, "BTCUSDT", 43000.0, 1.0),
        make_event(2_000, "ETHUSDT", 2300.0, 1.0),
        make_event(3_000, "SOLUSDT", 150.0, 1.0),
        make_event(4_000, "BTCUSDT", 43100.0, 1.0),
    ]);

    let replayed = log.replay(ReplayConfig::default().with_symbol(btc).with_symbol(eth)).unwrap();

    assert_eq!(replayed.len(), 3);
    assert!(replayed.iter().all(|e| e.symbol == btc || e.symbol == eth));
}

#[test]
fn replay_without_index_lists_segment_files() {
    // No index file: every segment file of the directory is read, in id order.
    let mut log = MemLog::open();
    log.append(&make_event(1, "A", 1.0, 1.0));
    log.rotate();
    log.append(&make_event(2, "B", 2.0, 1.0));
    log.rotate();
    let names = vec![
        "index.bin".to_string(),
        "segment_0001.alog".to_string(),
        "notes.txt".to_string(),
        "segment_0000.alog".to_string(),
    ];
    let iter = ReplayConfig::default().open(None, &names, &log.store()).unwrap();
    let ts: Vec<u64> = iter.collect().iter().map(|e| e.timestamp_ns).collect();
    assert_eq!(ts, vec![1, 2]);
}

#[test]
fn replay_refuses_a_corrupt_index_file() {
    let log = MemLog::open();
    let bad = vec![0u8; 12];
    match ReplayConfig::default().open(Some(&bad), &log.names(), &log.store()) {
        Err(ReplayError::Index(ashta::index::IndexError::InvalidSize { len, entry_size })) => {
            assert_eq!(len, 12);
            assert_eq!(entry_size, 40);
        }
        _ => panic!("a 12-byte index file must be refused"),
    }
}

#[test]
fn replay_next_steps_through_matching_events() {
    let btc = SymbolId::from("BTCUSDT");
    let log = write_log(&[
        make_event(1_000, "ETHUSDT", 1.0, 1.0),
        make_event(2_000, "BTCUSDT", 2.0, 1.0),
        make_event(3_000, "BTCUSDT", 3.0, 1.0),
    ]);
    let mut iter = ReplayConfig::default()
        .with_symbol(btc)
        .open(log.index_file.as_deref(), &log.names(), &log.store())
        .unwrap();
    assert!(!iter.matches(&make_event(2_000, "ETHUSDT", 1.0, 1.0)));
    assert!(iter.matches(&make_event(2_000, "BTCUSDT", 1.0, 1.0)));
    assert_eq!(iter.next().map(|e| e.timestamp_ns), Some(2_000));
    assert_eq!(iter.next().map(|e| e.timestamp_ns), Some(3_000));
    assert!(iter.next().is_none());
    assert!(iter.next().is_none());
}

#[test]
fn ingest_then_query_roundtrip_in_memory() {
    // Times in milliseconds become nanoseconds; a range query reads them back.
    let symbol = SymbolId::from("BTCUSDT");
    let lines = [
        "1,43000.00,1.0,43000.0,1000,True,True",
        "2,43100.00,2.0,86200.0,2000,False,True",
        "3,43200.00,3.0,129600.0,3000,True,True",
        "4,43300.00,4.0,173200.0,4000,True,True",
    ];
    let mut log = MemLog::open();
    for line in lines {
        let f = ashta::ingest::parse_trade_fields(line).unwrap();
        let p: f64 = f.price.parse().unwrap();
        let v: f64 = f.volume.parse().unwrap();
        log.append(&Event {
            timestamp_ns: f.timestamp_ns,
            symbol,
            price_bits: p.to_bits(),
            volume_bits: v.to_bits(),
            kind: EventKind::Trade,
            _pad: [0; 7],
        });
    }
    log.rotate();
    let events = log.engine().read_range(symbol, 1_000_000_000, 3_000_000_000, &log.store());
    assert_eq!(events.len(), 3);
    assert!((price(&events[0]) - 43000.0).abs() < 1e-9);
    assert!((price(&events[2]) - 43200.0).abs() < 1e-9);
}

#[test]
fn append_refuses_an_event_older_than_its_symbol() {
    let mut log = MemLog::open();
    assert!(log.append(&make_event(5_000, "BTC/USD", 1.0, 1.0)));
    assert!(log.append(&make_event(1_000, "ETH/USD", 1.0, 1.0)));
    // Older than the last BTC/USD event: refused, nothing written.
    assert!(!log.append(&make_event(4_999, "BTC/USD", 1.0, 1.0)));
    assert_eq!(log.writer.current_event_count(), 2);
    // Equal timestamps are allowed.
    assert!(log.append(&make_event(5_000, "BTC/USD", 1.0, 1.0)));
    log.rotate();
    // The order holds across segments...
    assert!(!log.append(&make_event(4_000, "BTC/USD", 1.0, 1.0)));
    assert!(log.append(&make_event(6_000, "BTC/USD", 1.0, 1.0)));
    log.rotate();
    // ...and across sessions, through the reloaded index.
    let mut log2 = MemLog::reopen(log.segments.clone(), log.index_file.clone());
    assert!(!log2.append(&make_event(5_500, "BTC/USD", 1.0, 1.0)));
    assert!(log2.append(&make_event(1_500, "ETH/USD", 1.0, 1.0)));
}

#[test]
fn replay_with_an_empty_index_reads_every_segment() {
    // index.bin exists but holds no entry: every segment file is replayed.
    let mut log = MemLog::open();
    log.append(&make_event(10, "BTCUSDT", 1.0, 1.0));
    let names = vec!["index.bin".to_string(), "segment_0000.alog".to_string()];
    let empty: Vec<u8> = Vec::new();
    let iter = ReplayConfig::default().open(Some(&empty), &names, &log.store()).unwrap();
    let ts: Vec<u64> = iter.collect().iter().map(|e| e.timestamp_ns).collect();
    assert_eq!(ts, vec![10]);
}

#[test]
fn paths_end_with_their_file_names() {
    let p = segment_path("data/log", 12);
    assert!(p.ends_with("segment_0012.alog"));
    assert_eq!(parse_segment_name(&p[p.len() - "segment_0012.alog".len()..]), Some(12));
    let i = index_path("data/log");
    assert!(i.ends_with("index.bin"));
    assert_eq!(segment_path("", 7).as_str(), "segment_0007.alog");
}

#[test]
fn append_updates_the_index_entry_of_its_symbol_and_segment() {
    let btc = SymbolId::from("BTC/USD");
    let eth = SymbolId::from("ETH/USD");
    let mut log = MemLog::open();
    assert!(log.append(&make_event(100, "BTC/USD", 1.0, 1.0)));
    assert!(log.append(&make_event(50, "ETH/USD", 1.0, 1.0)));
    assert!(log.append(&make_event(300, "BTC/USD", 1.0, 1.0)));
    let seg = log.writer.current_segment_id();
    let e = log.writer.index().get(btc, seg).unwrap();
    assert_eq!((e.min_ts, e.max_ts, e.event_count), (100, 300, 2));
    let e = log.writer.index().get(eth, seg).unwrap();
    assert_eq!((e.min_ts, e.max_ts, e.event_count), (50, 50, 1));
    assert_eq!(log.writer.index().len(), 2);
}
