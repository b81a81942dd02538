# page_replace

Virtual memory page replacement algorithms (FIFO, LRU, Clock, LFU) with
hit/miss statistics, written in Verus with machine-checked contracts.

- `src/lib.rs` — the `ReplacementModel` / `PageReplacer` traits: each replacer
  has an abstract state and a transition function; `access` follows the
  transition exactly and `run` follows it over a whole reference string.
- `src/fifo.rs`, `src/lru.rs`, `src/clock.rs`, `src/lfu.rs` — the four
  algorithms, each with its abstract state, well-formedness predicate,
  transition, a lemma stating the laws of one access, and an occupancy lemma
  (from empty, frames in use = min(capacity, distinct pages referenced)).
- `src/lru_stack.rs` — proof that LRU is a stack algorithm: more frames never
  cause more misses on any reference string.
- `src/stats.rs` — access records and `PageStats`.
- `tests/` — executable tests.
- `app/` — hit and miss rates as floating-point numbers, which stay outside the
  verified library.
