# db

A small storage-engine toolkit, verified with Verus.

- `src/rand.rs` — a seeded linear congruential generator.
- `src/common.rs` — byte-string keys and values, the four-byte little-endian
  length encoding, and the length-prefixed encoding of a key-value pair.
- `src/storage.rs` — encoder/decoder interfaces with in-memory implementations,
  block metadata, and the file interfaces.
- `src/cache.rs` — a doubly linked recency list in an arena, and an LRU cache
  built on it and a hash map. Putting a key the cache holds queues a new
  entry and leaves the old one queued until eviction reaches it; the model
  marks each queued entry live or not.
- `src/memtable.rs`, `src/log.rs` — the in-memory table of latest writes
  (values or deletion marks).
- `src/skip_list/` — an ordered map as a sorted base chain with random index
  levels (`list.rs`, `node.rs`), its model and laws (`entries.rs`), search
  visitors (`context.rs`), a map with deletion marks on top of it
  (`skip_list.rs`) and the benchmark interface (`bench.rs`). The contract of
  `SkipList::add` gives the keys of every index level after the call
  (`index_view`, built by `tower_keys` along the search path `path_pos`) and
  the generator's next state.
- `app/` — file storage, the floating-point benchmark drivers and the JSON
  form of a skip list.
