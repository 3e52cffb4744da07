# fastk

A storage engine for fixed-width time-series records (klines, scalar series, trades, BBO,
book deltas), written in Verus: the formats, decisions and searches are verified against
their contracts, and a thin layer of ordinary Rust does the file-system work.

## Layout

- `src/` — the verified library.
  - Formats: `codec`, `header` (chunk headers), `records`, `sparse_index`, `zmap` and `vix`
    (scalar sidecars), `manifest` (binary series manifests), `legacy` (JSON manifests).
  - Writing: `chunk_writer` (chunk images), `write_plan` (where a write goes, what it
    replaces), `compaction`.
  - Reading: `chunk_reader`, `range_read` (range, point and tail reads of chunk images),
    `replay`, `query_engine`, `predicate`, `predicate_scan` (per-chunk predicate query steps),
    `sequence` (sequence scans).
  - Upkeep: `recovery`, `repair`, `overlap`, `scan`, `validate`, `inventory`.
  - Keys and paths: `calendar`, `path`, `derived`, `catalog`, `meta`, `store`.
  - Caches: `cache`, `manifest_cache`.
  - Time readings and text helpers: `clock`, `text`, `strorder`, `ordering`, `error`.
- `tests/` — tests over the library's public API.
- `app/` — file and directory I/O, serde forms of the library's types, the loops that
  read files and hand their bytes to the library, and a store over a root directory
  (`store_io`) that composes them for scalar writes and scalar and kline reads.

The laws the library states (read-after-write of chunk images, manifests and caches,
zone-map pruning, sequence scans, sorting and merging) are public proof functions in the
modules they concern.
