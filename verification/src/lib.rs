//! Ashta-TS: an append-only, segmented time-series store for market events.
//!
//! The library holds the storage engine's logic: the binary layout of
//! events and index entries, the zone-map index, the segment writer state
//! machine, range queries, ordered replay, metrics and the text parsers used
//! for ingestion and kernel diagnostics. File and OS access is done by the
//! caller, which hands the library plain bytes and strings.

pub mod symbol;
pub mod event;
pub mod entry;
pub mod sorted;
pub mod index;
pub mod segment;
pub mod text;
pub mod log_writer;
pub mod query;
pub mod replay;
pub mod cpu;
pub mod diagnostics;
pub mod hugepages;
pub mod sched;
pub mod histogram;
pub mod metrics;
pub mod ingest;
