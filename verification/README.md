# ballista_client_pool

A bounded pool of reusable client connections, verified with Verus.

Per host, port and settings the pool keeps up to 64 connections. A connection is
checked out exclusively: an idle one is reused, the one returned last first, or
else a new one is opened while a permit is free. It goes back to the idle
connections of its endpoint when it is released, and is dropped when it is
discarded. An eviction drops the connections that were idle for longer than the
timeout, and with them the endpoints that have no connection left.

- `src/` is the library. It decides, and knows a connection by a number:
  `time` (moments, spans, the clock), `config` (what identifies an endpoint),
  `endpoint` (idle connections and permits of one endpoint), `table` (the
  endpoints, in a `DashMap`), `state` (the pool as a mathematical value, and its
  steps), `pool` (the pool), and `laws` (what holds of the pool as a whole).
- `app/` holds the connections, opens and awaits them, runs the background task
  that evicts idle connections, and has the Python bindings.
- `tests/` runs the library.

What the proofs rest on is said at the functions marked
`#[verifier::external_body]`: the semaphore of `tokio`, the hash map of `dashmap`
and the clock of the standard library.
