# ashta

An append-only, segmented time-series store for market events, written in
Verus: the storage engine's logic is verified, and a thin command-line
program does the file, network and kernel work around it.

## Layout

- `src/` — the verified library.
  - `symbol`, `event`, `entry`: the fixed 8-byte instrument identifier and
    the 40-byte binary records of events and index entries, with their
    encode/decode round trips.
  - `index`: the zone map (one entry per symbol and segment) and its
    file format; `sorted`: the sorted-listing lemmas it relies on.
  - `segment`, `log_writer`: the segment writer/reader and the log writer's
    state machine (append, rotate, reopen), which tells the caller what to
    write where.
  - `query`, `replay`: range queries and ordered replay over the stored
    segments, with the laws that zone-map pruning loses no event and that
    each symbol is read back in time order (the log writer refuses an event
    older than one already logged for its symbol).
  - `text`: verified string handling (trimming, splitting, number parsing
    and printing) used by the parsers.
  - `ingest`: Binance file names and trade lines.
  - `cpu`, `diagnostics`, `hugepages`, `sched`: CPU sets, CPU-list parsing,
    the kernel readiness report and its sysfs/procfs parsing.
  - `histogram`, `metrics`: power-of-two latency buckets, percentiles and
    the lock-free counters.
- `app/` — the program: segment and index files, memory mapping, the
  Binance WebSocket recorder, kernel calls, timing and float formatting.
- `tests/` — tests of the library, run against the compiled crate.
