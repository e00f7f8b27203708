# twellik

A small vector store for the browser. The verified library (`src/`) holds
the store's logic: named collections of points keyed by id, payload
matching, the upsert rules, and the ranking of search candidates by
distance. `app/` is the WASM side: the JavaScript interface, IndexedDB
storage, (de)serialisation, the floating-point cosine metric and the HNSW
index, which implements the library's `Index` trait.

- `src/payload.rs`: `Payload`, a map of text fields, and `match_payload`.
- `src/point.rs`, `src/query.rs`: points, queries and search candidates;
  coordinates and distances are carried as IEEE-754 binary64 bit patterns.
- `src/rank.rs`: the order of distances and the stable ranking of
  candidates.
- `src/index.rs`: the `Index` trait. Its contracts are assumed of every
  implementation: an index holds the points inserted into it, in order;
  it is asked only for vectors of one length and for no more candidates
  than it holds points; and it answers a search with `k` of its points,
  which depend only on the index and the query.
- `src/collection.rs`: a collection; its view records what its index
  holds.
- `src/store.rs`: the store of collections, `upsert_points` and
  `scroll_points`.
