use ashta::event::{Event, EventKind};
use ashta::ingest::{is_data_line, parse_trade_fields, symbol_from_filename, symbol_from_stem};
use ashta::symbol::SymbolId;

#[test]
fn symbol_from_filename_extracts_symbol() {
    let path = "BTCUSDT-trades-2024-01.csv";
    assert_eq!(symbol_from_filename(path), Some(SymbolId::from("BTCUSDT")));

    let path2 = "ETHUSDT-trades-2023-12.csv";
    assert_eq!(symbol_from_filename(path2), Some(SymbolId::from("ETHUSDT")));

    let path3 = "not_binance.csv";
    assert!(symbol_from_filename(path3).is_some());
}

#[test]
fn symbol_from_filename_edge_cases() {
    assert_eq!(symbol_from_filename("data/2024/SOLUSDT-trades-2024-02.csv"), Some(SymbolId::from("SOLUSDT")));
    assert_eq!(symbol_from_filename("-trades.csv"), None);
    assert_eq!(symbol_from_filename(""), None);
    assert_eq!(symbol_from_filename(".."), None);
    assert_eq!(symbol_from_filename("not_binance.csv"), Some(SymbolId::from("not_bina")));
}

#[test]
fn symbol_from_stem_takes_text_before_first_dash() {
    assert_eq!(symbol_from_stem("BTCUSDT-trades-2024-01"), Some(SymbolId::from("BTCUSDT")));
    assert_eq!(symbol_from_stem("ETH"), Some(SymbolId::from("ETH")));
    assert_eq!(symbol_from_stem("-x"), None);
    assert_eq!(symbol_from_stem(""), None);
}

#[test]
fn data_lines_and_headers() {
    assert!(!is_data_line("id,price,qty,quoteQty,time,isBuyerMaker,isBestMatch"));
    assert!(!is_data_line("CORRUPTED_LINE"));
    assert!(!is_data_line("   "));
    assert!(!is_data_line(""));
    assert!(is_data_line("  1,43000.00,0.5,21500.0,1704067200000,True,True\n"));
    assert!(is_data_line("-1,x"));
}

#[test]
fn parse_valid_line() {
    let sym = SymbolId::from("BTCUSDT");
    let fields = parse_trade_fields("1234567,43210.50,0.001,43.21,1704067200123,True,True").unwrap();
    let price: f64 = fields.price.parse().unwrap();
    let volume: f64 = fields.volume.parse().unwrap();
    let event = Event {
        timestamp_ns: fields.timestamp_ns,
        symbol: sym,
        price_bits: price.to_bits(),
        volume_bits: volume.to_bits(),
        kind: EventKind::Trade,
        _pad: [0; 7],
    };

    assert_eq!(event.timestamp_ns, 1_704_067_200_123 * 1_000_000);
    assert!((f64::from_bits(event.price_bits) - 43210.50).abs() < 1e-9);
    assert!((f64::from_bits(event.volume_bits) - 0.001).abs() < 1e-9);
    assert_eq!(event.symbol, sym);
    assert_eq!(event.kind, EventKind::Trade);
}

#[test]
fn parse_rejects_missing_fields() {
    assert!(parse_trade_fields("1234,43210.50,0.001").is_none());
}

#[test]
fn parse_trade_fields_edge_cases() {
    let f = parse_trade_fields("1, 2.5 ,3 ,4, 17 ").unwrap();
    assert_eq!(f.price, "2.5");
    assert_eq!(f.volume, "3");
    assert_eq!(f.timestamp_ns, 17_000_000);
    assert!(parse_trade_fields("1,2,3,4,abc,True,True").is_none());
    assert!(parse_trade_fields("1,2,3,4,-5").is_none());
    // 18446744073710 ms is more nanoseconds than a u64 holds.
    assert!(parse_trade_fields("1,2,3,4,18446744073710").is_none());
    assert_eq!(parse_trade_fields("1,2,3,4,18446744073709").unwrap().timestamp_ns, 18_446_744_073_709_000_000);
}
