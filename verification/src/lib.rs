//! Bounded pool of reusable client connections.
//!
//! [`pool::DefaultBallistaClientPool`] keeps, per host, port and settings, up to
//! [`endpoint::MAX_CONNECTIONS_PER_ENDPOINT`] reusable connections guarded by a
//! semaphore. A connection is checked out exclusively: an idle one is reused, or
//! else a new one is opened while a permit is free. It goes back to the idle
//! connections of its endpoint when it is released, or is dropped when it is
//! discarded; either way its permit is freed. An eviction drops connections that
//! were idle for longer than the pool's timeout.
//!
//! The pool makes these decisions and does nothing else: it knows a connection by
//! a number. Whoever uses it opens and closes the connections themselves, and
//! waits where the pool says so.
//!
//! - [`time`]: moments, spans and the clock.
//! - [`config`]: what identifies an endpoint.
//! - [`endpoint`]: one endpoint, its idle connections and its permits.
//! - [`table`]: the table of endpoints.
//! - [`state`]: the pool as a mathematical value, and the steps that it takes.
//! - [`pool`]: the pool.
//! - [`laws`]: what holds of the pool as a whole.

pub mod config;
pub mod endpoint;
pub mod laws;
pub mod pool;
pub mod state;
pub mod table;
pub mod time;
