use ballista_client_pool::config::GrpcClientConfig;
use ballista_client_pool::pool::{Checkout, DefaultBallistaClientPool, OpenSlot, PooledClient};
use ballista_client_pool::time::Span;

fn config() -> GrpcClientConfig {
    GrpcClientConfig {
        max_message_size: 16777216,
        use_tls: false,
        io_retries_times: 3,
        io_retry_wait_time_ms: 3000,
        other_settings: 0,
    }
}

fn make_pool(timeout: Span) -> DefaultBallistaClientPool {
    DefaultBallistaClientPool::new(timeout, false)
}

fn open_slot(pool: &mut DefaultBallistaClientPool, host: &str, port: u16) -> OpenSlot {
    match pool.acquire(host, port, &config()) {
        Checkout::Open(slot, _) => slot,
        other => panic!("no permit to open a connection: {:?}", other),
    }
}

fn open(pool: &mut DefaultBallistaClientPool, host: &str, port: u16) -> PooledClient {
    let slot = open_slot(pool, host, port);
    pool.opened::<()>(slot, Ok(())).unwrap()
}

/// Put an idle connection of the given age into the pool, so that no real server
/// is needed.
fn inject_idle(pool: &mut DefaultBallistaClientPool, host: &str, port: u16, age: Span) {
    let client = open(pool, host, port);
    let since = pool.now().checked_sub(age).unwrap();
    pool.release_at(client, since);
}

#[test]
fn idle_count_starts_at_zero() {
    let pool = make_pool(Span::from_secs(60));
    assert_eq!(pool.idle_count(), 0);
}

#[test]
fn evict_idle_does_not_panic_on_empty_pool() {
    let mut pool = make_pool(Span::from_secs(60));
    pool.evict_idle();
    assert_eq!(pool.idle_count(), 0);
}

/// An idle connection older than the idle timeout must be removed by `evict_idle`.
#[test]
fn evict_idle_removes_expired_entries() {
    let mut pool = make_pool(Span::from_millis(100));

    inject_idle(&mut pool, "host-a", 1234, Span::from_millis(100 + 50));
    assert_eq!(pool.idle_count(), 1);

    pool.evict_idle();
    assert_eq!(pool.idle_count(), 0);
}

/// A connection younger than the idle timeout must survive eviction.
#[test]
fn evict_idle_keeps_fresh_entries() {
    let mut pool = make_pool(Span::from_secs(60));

    inject_idle(&mut pool, "host-b", 2345, Span::from_millis(10));
    assert_eq!(pool.idle_count(), 1);

    pool.evict_idle();
    assert_eq!(pool.idle_count(), 1);
}

/// Releasing a [PooledClient] must return the connection to the pool.
#[test]
fn pooled_client_returns_on_drop() {
    let mut pool = make_pool(Span::from_secs(300));
    let guard = open(&mut pool, "host-c", 3456);

    assert_eq!(pool.idle_count(), 0);
    pool.release(guard);
    assert_eq!(pool.idle_count(), 1);
}

/// Calling `discard` must drop the connection instead of returning it.
#[test]
fn discard_does_not_return_to_pool() {
    let mut pool = make_pool(Span::from_secs(300));
    let guard = open(&mut pool, "host-d", 4567);

    pool.discard(guard);
    assert_eq!(pool.idle_count(), 0);
}

/// Mixed scenario: one expired and one fresh endpoint, of which only the expired
/// one is removed and the other survives.
#[test]
fn evict_idle_partial_removal() {
    let mut pool = make_pool(Span::from_millis(100));

    inject_idle(&mut pool, "host-e", 5678, Span::from_millis(100 + 50)); // stale
    inject_idle(&mut pool, "host-f", 6789, Span::from_millis(10)); // fresh
    assert_eq!(pool.idle_count(), 2);

    let dropped = pool.evict_idle();
    assert_eq!(pool.idle_count(), 1);
    assert_eq!(dropped, vec![0]);
}

/// Nothing can be idle longer than the greatest timeout.
#[test]
fn evict_idle_keeps_everything_under_the_greatest_timeout() {
    let mut pool = make_pool(Span::new(u64::MAX, 999_999_999));

    inject_idle(&mut pool, "host-b", 2345, Span::from_millis(10));
    assert_eq!(pool.idle_count(), 1);

    assert_eq!(pool.evict_idle(), Vec::<u64>::new());
    assert_eq!(pool.idle_count(), 1);
}
