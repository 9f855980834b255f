# sense_rig

A miniature sensor-data ingestion pipeline with accountable delivery
semantics, verified with Verus: every lossy behavior is observable and
counted, never silent.

- `src/types.rs` — readings and source events. A reading's payload is a
  type parameter: the pipeline never looks inside it.
- `src/pipeline.rs` — the deduplicator: sequence-number deduplication within
  a bounded reorder window, its model (`DedupView`) and its laws (each
  sequence number delivered at most once, duplicates only after a delivery,
  a tracked set of at most `window + 1` entries, a monotone high-water mark).
- `src/stats.rs` — delivery counters and `ingest`, which feeds one source
  event through the deduplicator into the counters; every event is counted
  exactly once.
- `src/source.rs` — the fault-injecting source simulator, driven by a seeded
  `rand` generator, each fault chance held as a `Chance` (never, always, or
  a Bernoulli distribution): its model (`SimView`), and its laws (certain
  chances decide their fault, conservation of readings, every fault bumps a
  counter, exact outages with a grace tick, timestamps that regress by at
  most the jitter, and the pipeline counting exactly what the source emits).
- `app/main.rs` — the command line: float settings (rate, probabilities) are
  validated and converted there, payloads are drawn there, and the report
  (with its percentages) is printed there.
