# matchmaker

A 5v5 competitive matchmaker whose core is verified with Verus.

- `src/` — the verified library:
  - `pool.rs` — the waiting pool (a `DashMap` keyed by player id): join,
    leave, region snapshots, the ordered list of regions, all-or-nothing
    batch removal and time-based eviction.
  - `engine.rs` — the scan: evict, then per region offer the longest
    waiters to a lobby selector, commit each proposed lobby that is five
    against five from that region and still waiting, then count the scan,
    its lobbies and its duration.
  - `balance.rs` — the 252 ways to split ten players five against five,
    the choice of the least imbalanced one and the split itself.
  - `metrics.rs` — health counters, the rolling scan-latency window and
    its 99th percentile.
  - `region.rs`, `types.rs`, `config.rs`, `error.rs`, `api.rs` — region
    names, shared types, settings checks, errors and the HTTP replies.
- `app/` — the HTTP service (Axum, Tokio): wire types with serde, the
  floating-point parts of matching (skill bands, lobby quality, team
  averages), the worker loop.
- `tests/` — tests of the library on concrete values.

Skill ratings and quality scores are `f64` values; the library carries them
as bit patterns and leaves all floating-point arithmetic to `app/`. Times are
nanoseconds since the Unix epoch; player ids are the 128-bit values of UUIDs.
