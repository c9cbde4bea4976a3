use ashta::index::{IndexError, SegmentIndex};
use ashta::symbol::SymbolId;

#[test]
fn observe_and_query_basic() {
    let mut idx = SegmentIndex::open(None).unwrap();

    let btc = SymbolId::from("BTC/USD");
    let eth = SymbolId::from("ETH/USD");

    idx.observe(btc, 0, 1_000);
    idx.observe(btc, 0, 50_000);
    idx.observe(eth, 0, 2_000);
    idx.observe(eth, 0, 40_000);

    idx.observe(btc, 1, 60_000);
    idx.observe(btc, 1, 120_000);

    let candidates = idx.query(btc, 10_000, 70_000);
    assert_eq!(candidates, vec![0, 1]);

    let candidates = idx.query(btc, 130_000, 200_000);
    assert!(candidates.is_empty());

    let candidates = idx.query(eth, 1_000, 5_000);
    assert_eq!(candidates, vec![0]);
}

#[test]
fn flush_and_reload() {
    let btc = SymbolId::from("BTC/USD");

    let file = {
        let mut idx = SegmentIndex::open(None).unwrap();
        idx.observe(btc, 0, 1_000);
        idx.observe(btc, 0, 9_000);
        idx.observe(btc, 1, 10_000);
        idx.to_bytes()
    };

    let idx = SegmentIndex::open(Some(&file)).unwrap();
    assert_eq!(idx.len(), 2);

    let candidates = idx.query(btc, 5_000, 15_000);
    assert_eq!(candidates, vec![0, 1]);

    let candidates = idx.query(btc, 20_000, 30_000);
    assert!(candidates.is_empty());
}

#[test]
fn query_returns_sorted_segment_ids() {
    let mut idx = SegmentIndex::open(None).unwrap();
    let sym = SymbolId::from("AAPL");

    idx.observe(sym, 4, 400);
    idx.observe(sym, 2, 200);
    idx.observe(sym, 0, 100);
    idx.observe(sym, 3, 300);
    idx.observe(sym, 1, 150);

    let candidates = idx.query(sym, 0, 1_000);
    assert_eq!(candidates, vec![0, 1, 2, 3, 4]);
}

#[test]
fn query_all_merges_symbols_without_duplicates() {
    let mut idx = SegmentIndex::new();
    let btc = SymbolId::from("BTC/USD");
    let eth = SymbolId::from("ETH/USD");
    idx.observe(btc, 2, 500);
    idx.observe(eth, 2, 600);
    idx.observe(eth, 0, 100);
    idx.observe(btc, 1, 9_000);
    assert_eq!(idx.query_all(0, 1_000), vec![0, 2]);
    assert_eq!(idx.query_all(0, u64::MAX), vec![0, 1, 2]);
    assert!(idx.query_all(10_000, 20_000).is_empty());
    assert_eq!(idx.len(), 4);
    assert!(!idx.is_empty());
}

#[test]
fn open_rejects_truncated_index_file() {
    let mut idx = SegmentIndex::new();
    idx.observe(SymbolId::from("X"), 0, 1);
    let mut file = idx.to_bytes();
    file.pop();
    match SegmentIndex::open(Some(&file)) {
        Err(IndexError::InvalidSize { len, entry_size }) => {
            assert_eq!(len, 39);
            assert_eq!(entry_size, 40);
        }
        Ok(_) => panic!("a 39-byte index file must be refused"),
    }
}

#[test]
fn empty_index_file_gives_empty_index() {
    let idx = SegmentIndex::open(Some(&[])).unwrap();
    assert!(idx.is_empty());
    assert_eq!(idx.len(), 0);
    assert!(idx.to_bytes().is_empty());
}

#[test]
fn reload_keeps_counts_and_bounds() {
    let mut idx = SegmentIndex::new();
    let sym = SymbolId::from("SOL");
    idx.observe(sym, 7, 300);
    idx.observe(sym, 7, 100);
    idx.observe(sym, 7, 200);
    let reloaded = SegmentIndex::open(Some(&idx.to_bytes())).unwrap();
    assert_eq!(reloaded.len(), 1);
    assert_eq!(reloaded.query(sym, 100, 100), vec![7]);
    assert_eq!(reloaded.query(sym, 300, 300), vec![7]);
    assert!(reloaded.query(sym, 301, 400).is_empty());
    assert!(reloaded.query(sym, 0, 99).is_empty());
    assert_eq!(reloaded.to_bytes().len(), 40);
}

#[test]
fn get_returns_the_entry_of_a_key() {
    let mut idx = SegmentIndex::new();
    let sym = SymbolId::from("BTC/USD");
    idx.observe(sym, 3, 900);
    idx.observe(sym, 3, 100);
    let e = idx.get(sym, 3).unwrap();
    assert_eq!(e.min_ts, 100);
    assert_eq!(e.max_ts, 900);
    assert_eq!(e.event_count, 2);
    assert!(idx.get(sym, 4).is_none());
    assert!(idx.get(SymbolId::from("ETH/USD"), 3).is_none());
}

#[test]
fn len_counts_distinct_pairs_observed() {
    let mut idx = SegmentIndex::open(None).unwrap();
    assert_eq!(idx.len(), 0);
    let btc = SymbolId::from("BTC");
    let eth = SymbolId::from("ETH");
    idx.observe(btc, 0, 5);
    idx.observe(btc, 0, 1);
    idx.observe(btc, 1, 9);
    assert_eq!(idx.len(), 2);
    idx.observe(eth, 1, 2);
    idx.observe(btc, 1, 3);
    assert_eq!(idx.len(), 3);
}

#[test]
fn logged_after_reports_later_events_of_a_symbol() {
    let mut idx = SegmentIndex::new();
    let btc = SymbolId::from("BTC");
    idx.observe(btc, 0, 100);
    idx.observe(btc, 2, 50);
    assert!(idx.logged_after(btc, 99));
    assert!(!idx.logged_after(btc, 100));
    assert!(!idx.logged_after(SymbolId::from("ETH"), 0));
}
