use std::collections::HashMap;

use ashta::entry::IndexEntry;
use ashta::event::{Event, EventKind};
use ashta::symbol::SymbolId;

fn make_event(ts: u64, symbol: &str, price: f64, volume: f64) -> Event {
    Event {
        timestamp_ns: ts,
        symbol: SymbolId::from(symbol),
        price_bits: price.to_bits(),
        volume_bits: volume.to_bits(),
        kind: EventKind::Trade,
        _pad: [0; 7],
    }
}

#[test]
fn symbol_layout_is_transparent() {
    assert_eq!(std::mem::size_of::<SymbolId>(), 8);
    assert_eq!(std::mem::align_of::<SymbolId>(), 1);
}

#[test]
fn symbol_encode_decode_roundtrip() {
    let id = SymbolId::from("BTC/USD");
    assert_eq!(id.as_str(), "BTC/USD");
    assert_eq!(id.as_bytes(), b"BTC/USD\0");
}

#[test]
fn symbol_short_is_padded() {
    let id = SymbolId::from("AAPL");
    assert_eq!(id.as_bytes(), b"AAPL\0\0\0\0");
    assert_eq!(id.as_str(), "AAPL");
}

#[test]
fn symbol_too_long_is_truncated() {
    let id = SymbolId::from("TOOLONG!X");
    assert_eq!(id.as_bytes(), b"TOOLONG!");
    assert_eq!(id.as_str(), "TOOLONG!");
}

#[test]
fn symbol_equality_and_hash_work() {
    let a = SymbolId::from("ETH/USD");
    let b = SymbolId::from("ETH/USD");
    let c = SymbolId::from("BTC/USD");

    assert_eq!(a, b);
    assert_ne!(a, c);

    let mut map: HashMap<SymbolId, u64> = HashMap::new();
    map.insert(a, 42);
    assert_eq!(map[&b], 42);
}

#[test]
fn symbol_exactly_eight_bytes_roundtrips() {
    let id = SymbolId::from("BTCUSDT!");
    assert_eq!(id.as_bytes(), b"BTCUSDT!");
    assert_eq!(id.as_str(), "BTCUSDT!");
}

#[test]
fn symbol_from_raw_invalid_utf8_reads_as_empty() {
    let id = SymbolId::from_raw([0xff, 0xfe, 0, 0, 0, 0, 0, 0]);
    assert_eq!(id.as_str(), "");
    let id = SymbolId::from_raw(*b"AB\0CDEFG");
    assert_eq!(id.as_str(), "AB");
}

#[test]
fn symbol_truncation_counts_bytes_not_chars() {
    // "ééééé" is 10 bytes; the 8 kept bytes are 4 whole characters.
    let id = SymbolId::from("ééééé");
    assert_eq!(id.as_str(), "éééé");
    // 3 + 2 + 2 bytes, then the first byte of the third 'é': the cut falls
    // inside a character, so the unpadded bytes are not valid UTF-8.
    let id = SymbolId::from("abcéééé");
    assert_eq!(id.as_str(), "");
}

#[test]
fn event_layout_is_stable() {
    assert_eq!(std::mem::size_of::<Event>(), 40);
    assert_eq!(std::mem::align_of::<Event>(), 8);
}

#[test]
fn event_bytes_roundtrip() {
    let e = make_event(1_704_067_200_123_000_000, "BTCUSDT", 43210.5, 0.001);
    let bytes = e.to_bytes();
    assert_eq!(bytes.len(), 40);
    assert_eq!(&bytes[0..8], &1_704_067_200_123_000_000u64.to_le_bytes());
    assert_eq!(&bytes[8..16], b"BTCUSDT\0");
    assert_eq!(&bytes[16..24], &43210.5f64.to_bits().to_le_bytes());
    assert_eq!(bytes[32], 0);
    let back = Event::from_bytes(&bytes).unwrap();
    assert_eq!(back.timestamp_ns, e.timestamp_ns);
    assert_eq!(back.symbol, e.symbol);
    assert_eq!(f64::from_bits(back.price_bits), 43210.5);
    assert_eq!(f64::from_bits(back.volume_bits), 0.001);
    assert_eq!(back.kind, EventKind::Trade);
}

#[test]
fn event_from_bytes_rejects_bad_kind() {
    let mut bytes = make_event(1, "X", 1.0, 1.0).to_bytes();
    bytes[32] = 3;
    assert!(Event::from_bytes(&bytes).is_none());
    bytes[32] = 2;
    assert_eq!(Event::from_bytes(&bytes).unwrap().kind, EventKind::AskUpdate);
}

#[test]
fn event_kind_bytes() {
    assert_eq!(EventKind::Trade.to_byte(), 0);
    assert_eq!(EventKind::BidUpdate.to_byte(), 1);
    assert_eq!(EventKind::AskUpdate.to_byte(), 2);
    assert_eq!(EventKind::from_byte(1), Some(EventKind::BidUpdate));
    assert_eq!(EventKind::from_byte(7), None);
}

#[test]
fn entry_layout_is_stable() {
    assert_eq!(std::mem::size_of::<IndexEntry>(), 40);
    assert_eq!(std::mem::align_of::<IndexEntry>(), 8);
}

#[test]
fn observe_updates_min_max() {
    let sym = SymbolId::from("BTC/USD");
    let mut e = IndexEntry::new(sym, 0, 5_000);

    e.observe(3_000);
    e.observe(8_000);
    e.observe(6_000);

    assert_eq!(e.min_ts, 3_000);
    assert_eq!(e.max_ts, 8_000);
    assert_eq!(e.event_count, 4);
}

#[test]
fn overlaps_logic() {
    let sym = SymbolId::from("ETH/USD");
    let mut e = IndexEntry::new(sym, 0, 10_000);
    e.observe(50_000);

    assert!(e.overlaps(5_000, 15_000));
    assert!(e.overlaps(20_000, 30_000));
    assert!(e.overlaps(40_000, 60_000));
    assert!(e.overlaps(1_000, 100_000));
    assert!(!e.overlaps(60_000, 70_000));
    assert!(!e.overlaps(1_000, 9_000));
}

#[test]
fn entry_bytes_roundtrip() {
    let mut e = IndexEntry::new(SymbolId::from("ETH/USD"), 42, 10_000);
    e.observe(50_000);
    let bytes = e.to_bytes();
    assert_eq!(bytes.len(), 40);
    assert_eq!(&bytes[0..8], b"ETH/USD\0");
    assert_eq!(&bytes[8..12], &42u32.to_le_bytes());
    let back = IndexEntry::from_bytes(&bytes);
    assert_eq!(back.symbol, e.symbol);
    assert_eq!(back.segment_id, 42);
    assert_eq!(back.min_ts, 10_000);
    assert_eq!(back.max_ts, 50_000);
    assert_eq!(back.event_count, 2);
}

#[test]
fn entry_span_after_a_series_of_observations() {
    let ts = [700u64, 300, 900, 500, 300];
    let mut e = IndexEntry::new(SymbolId::from("X"), 1, ts[0]);
    for &t in &ts[1..] {
        e.observe(t);
    }
    assert_eq!(e.min_ts, 300);
    assert_eq!(e.max_ts, 900);
    assert_eq!(e.event_count, 5);
    // Every window holding an observed timestamp overlaps.
    assert!(e.overlaps(500, 500));
    assert!(e.overlaps(600, 650)); // a false positive: no timestamp lies there
    assert!(!e.overlaps(901, 1_000));
}

#[test]
fn trim_removes_exactly_the_std_whitespace() {
    for u in 0u32..=0x10FFFF {
        if let Some(c) = char::from_u32(u) {
            let trimmed = ashta::text::trim(&[c]);
            assert_eq!(trimmed.is_empty(), c.is_whitespace(), "code point {:#x}", u);
        }
    }
}
