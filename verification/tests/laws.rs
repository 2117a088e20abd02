use ballista_client_pool::config::{endpoint_key, ConnectRequest, GrpcClientConfig};
use ballista_client_pool::endpoint::{Endpoint, Turn, MAX_CONNECTIONS_PER_ENDPOINT};
use ballista_client_pool::pool::{
    check_interval, eviction_step, Checkout, DefaultBallistaClientPool, EvictionStep, OpenSlot,
    PooledClient,
};
use ballista_client_pool::time::{moment_after_origin, Moment, Span};

fn config() -> GrpcClientConfig {
    GrpcClientConfig {
        max_message_size: 4096,
        use_tls: true,
        io_retries_times: 5,
        io_retry_wait_time_ms: 250,
        other_settings: 8,
    }
}

fn pool_with_timeout(secs: u64) -> DefaultBallistaClientPool {
    DefaultBallistaClientPool::new(Span::from_secs(secs), false)
}

fn slot(pool: &mut DefaultBallistaClientPool, host: &str) -> (OpenSlot, ConnectRequest) {
    match pool.acquire(host, 50051, &config()) {
        Checkout::Open(slot, request) => (slot, request),
        other => panic!("no permit to open a connection: {:?}", other),
    }
}

fn open(pool: &mut DefaultBallistaClientPool, host: &str) -> PooledClient {
    let (slot, _) = slot(pool, host);
    pool.opened::<()>(slot, Ok(())).unwrap()
}

fn reuse(pool: &mut DefaultBallistaClientPool, host: &str) -> PooledClient {
    match pool.acquire(host, 50051, &config()) {
        Checkout::Reuse(client) => client,
        other => panic!("no idle connection: {:?}", other),
    }
}

fn waits(pool: &mut DefaultBallistaClientPool, host: &str) -> bool {
    matches!(pool.acquire(host, 50051, &config()), Checkout::Wait)
}

fn at(secs: u64) -> Moment {
    moment_after_origin(secs, 0)
}

#[test]
fn a_new_connection_is_opened_with_the_settings() {
    let mut pool = pool_with_timeout(60);
    let (slot, request) = slot(&mut pool, "worker-7");
    assert_eq!(request.host, "worker-7");
    assert_eq!(request.port, 50051);
    assert_eq!(request.max_message_size, 4096);
    assert!(request.use_tls);
    assert_eq!(request.io_retries_times, 5);
    assert_eq!(request.io_retry_wait_time_ms, 250);
    assert_eq!(*slot.endpoint(), ("worker-7".to_string(), 50051, (4096, true, 5, 250, 8)));
    assert_eq!(pool.connections_opened(), 0);
    let client = pool.opened::<()>(slot, Ok(())).unwrap();
    assert_eq!(client.client(), 0);
    assert_eq!(pool.connections_opened(), 1);
    assert_eq!(*client.endpoint(), endpoint_key("worker-7", 50051, &config()));
}

#[test]
fn no_more_than_the_maximum_is_checked_out() {
    let mut pool = pool_with_timeout(60);
    let mut out = Vec::new();
    for _ in 0..64 {
        out.push(open(&mut pool, "full"));
    }
    assert_eq!(MAX_CONNECTIONS_PER_ENDPOINT, 64);
    assert!(waits(&mut pool, "full"));
    assert!(waits(&mut pool, "full"));

    // Another endpoint is not affected.
    let other = open(&mut pool, "free");
    pool.release(other);

    // A connection that comes back makes room, and is the one handed out.
    let back = out.pop().unwrap();
    assert_eq!(back.client(), 63);
    pool.release(back);
    assert_eq!(pool.idle_count(), 2);
    assert_eq!(reuse(&mut pool, "full").client(), 63);
    assert!(waits(&mut pool, "full"));
}

#[test]
fn a_discarded_connection_makes_room_for_a_new_one() {
    let mut pool = pool_with_timeout(60);
    let mut out = Vec::new();
    for _ in 0..64 {
        out.push(open(&mut pool, "full"));
    }
    assert!(waits(&mut pool, "full"));
    pool.discard(out.pop().unwrap());
    assert_eq!(pool.idle_count(), 0);
    assert_eq!(open(&mut pool, "full").client(), 64);
    assert!(waits(&mut pool, "full"));
}

#[test]
fn a_failed_opening_hands_on_its_error_and_frees_the_permit() {
    let mut pool = pool_with_timeout(60);
    let key = endpoint_key("down", 50051, &config());
    for _ in 0..200 {
        let (slot, _) = slot(&mut pool, "down");
        assert!(pool.in_use(&key));
        let refused = pool.opened(slot, Err("connection refused"));
        assert_eq!(refused.unwrap_err(), "connection refused");
        assert!(!pool.in_use(&key));
    }
    assert_eq!(pool.idle_count(), 0);
}

#[test]
fn the_connection_returned_last_is_reused_first() {
    let mut pool = pool_with_timeout(60);
    let first = open(&mut pool, "host");
    let second = open(&mut pool, "host");
    let third = open(&mut pool, "host");
    pool.release(second);
    pool.release(third);
    pool.release(first);
    assert_eq!(pool.idle_count(), 3);
    let again = reuse(&mut pool, "host");
    assert_eq!(again.client(), 0);
    assert_eq!(reuse(&mut pool, "host").client(), 2);
    pool.release(again);
    assert_eq!(reuse(&mut pool, "host").client(), 0);
    assert_eq!(reuse(&mut pool, "host").client(), 1);
    assert_eq!(pool.idle_count(), 0);
    slot(&mut pool, "host");
}

#[test]
fn no_two_users_hold_one_connection() {
    let mut pool = pool_with_timeout(60);
    let mut held: Vec<PooledClient> = Vec::new();
    let mut given_up: Vec<u64> = Vec::new();
    for round in 0..200 {
        let client = match pool.acquire("host", 50051, &config()) {
            Checkout::Reuse(client) => client,
            Checkout::Open(slot, _) => pool.opened::<()>(slot, Ok(())).unwrap(),
            Checkout::Wait => panic!("the pool is not full"),
        };
        assert!(held.iter().all(|other| other.client() != client.client()));
        assert!(!given_up.contains(&client.client()));
        held.push(client);
        if round % 3 == 1 {
            pool.release(held.remove(0));
        }
        if round % 3 == 2 {
            pool.release(held.remove(held.len() / 2));
        }
        if round % 5 == 4 {
            let client = held.remove(0);
            given_up.push(client.client());
            pool.discard(client);
        }
    }
    assert_eq!(given_up.len(), 40);
}

#[test]
fn endpoints_differ_by_host_port_and_settings() {
    let mut pool = pool_with_timeout(60);
    let client = open(&mut pool, "host");
    pool.release(client);

    let mut plain = config();
    plain.use_tls = false;
    let mut patient = config();
    patient.io_retry_wait_time_ms = 251;
    let mut other = config();
    other.other_settings = 9;
    assert!(matches!(pool.acquire("host2", 50051, &config()), Checkout::Open(_, _)));
    assert!(matches!(pool.acquire("host", 50052, &config()), Checkout::Open(_, _)));
    assert!(matches!(pool.acquire("host", 50051, &plain), Checkout::Open(_, _)));
    assert!(matches!(pool.acquire("host", 50051, &patient), Checkout::Open(_, _)));
    assert!(matches!(pool.acquire("host", 50051, &other), Checkout::Open(_, _)));
    assert_eq!(pool.idle_count(), 1);
    assert_eq!(reuse(&mut pool, "host").client(), 0);
}

#[test]
fn eviction_drops_what_was_idle_for_longer_than_the_timeout() {
    let mut pool = pool_with_timeout(60);
    let mut out = Vec::new();
    for _ in 0..4 {
        out.push(open(&mut pool, "host"));
    }
    for (returned, client) in [39u64, 40, 41, 10].into_iter().zip(out) {
        pool.release_at(client, at(returned));
    }
    // At 100 s, who came back at 40 s has been idle for the timeout, and stays.
    let dropped = pool.evict_at(at(100));
    assert_eq!(dropped, vec![0, 3]);
    assert_eq!(pool.idle_count(), 2);
    // A second eviction at the same moment finds nothing more.
    assert_eq!(pool.evict_at(at(100)), Vec::<u64>::new());
    assert_eq!(pool.idle_count(), 2);
    // The order among the survivors is kept, and what was dropped does not return.
    assert_eq!(reuse(&mut pool, "host").client(), 2);
    assert_eq!(reuse(&mut pool, "host").client(), 1);
    assert_eq!(open(&mut pool, "host").client(), 4);
}

#[test]
fn only_the_last_eviction_counts() {
    for (timeout, left) in [(3u64, 1), (9_223_372_036_854_775_813, 8), (u64::MAX, 8)] {
        let mut twice = pool_with_timeout(timeout);
        let mut once = pool_with_timeout(timeout);
        for pool in [&mut twice, &mut once] {
            let mut out = Vec::new();
            for number in 0..8 {
                out.push(open(pool, &format!("host-{}", number % 2)));
            }
            for (returned, client) in out.into_iter().enumerate() {
                pool.release_at(client, at(returned as u64));
            }
        }
        twice.evict_at(at(1));
        twice.evict_at(at(10));
        once.evict_at(at(10));
        assert_eq!(twice.idle_count(), left);
        assert_eq!(once.idle_count(), left);
        assert_eq!(reuse(&mut twice, "host-1").client(), 7);
        assert_eq!(reuse(&mut once, "host-1").client(), 7);
    }
}

#[test]
fn eviction_spares_connections_that_are_checked_out() {
    let mut pool = pool_with_timeout(1);
    let kept = open(&mut pool, "host");
    let idle = open(&mut pool, "host");
    pool.release_at(idle, at(0));
    assert_eq!(pool.evict_at(at(50)), vec![1]);
    assert_eq!(pool.idle_count(), 0);
    assert!(pool.in_use(kept.endpoint()));
    pool.release_at(kept, at(60));
    assert_eq!(pool.idle_count(), 1);
    assert_eq!(reuse(&mut pool, "host").client(), 0);
}

#[test]
fn nothing_is_idle_longer_than_a_timeout_beyond_all_moments() {
    let mut pool = pool_with_timeout(u64::MAX);
    let first = open(&mut pool, "host");
    let second = open(&mut pool, "host");
    pool.release_at(first, at(10));
    pool.release_at(second, at(30));
    assert_eq!(pool.evict_at(at(40)), Vec::<u64>::new());
    assert_eq!(pool.evict_at(at(u64::MAX)), Vec::<u64>::new());
    assert_eq!(pool.idle_count(), 2);
}

#[test]
fn an_eviction_accounts_for_every_connection() {
    let mut pool = pool_with_timeout(1);
    for number in 0..10u64 {
        let host = format!("host-{}", number % 3);
        let client = open(&mut pool, &host);
        assert_eq!(client.client(), number);
        if number < 7 {
            pool.discard(client);
        } else {
            pool.release_at(client, at(number));
        }
    }
    assert_eq!(pool.idle_count(), 3);
    let mut dropped = pool.evict_at(at(10));
    dropped.sort();
    assert_eq!(dropped, vec![7, 8]);
    assert_eq!(pool.checked_idle_count(), Some(1));
}

#[test]
fn the_clock_moves_forward() {
    let pool = pool_with_timeout(60);
    let before = pool.now();
    assert!(before.is_at_or_after(&at(0)));
    let mut later = pool.now();
    while before.is_at_or_after(&later) {
        later = pool.now();
    }
    assert!(later.is_at_or_after(&before));
    assert!(!before.is_at_or_after(&later));
}

#[test]
fn a_released_connection_ages_by_the_clock_of_the_pool() {
    let mut pool = DefaultBallistaClientPool::new(Span::new(0, 0), false);
    let before = pool.now();
    let client = open(&mut pool, "host-a");
    pool.release(client);
    assert_eq!(pool.idle_count(), 1);
    assert_eq!(pool.evict_at(before), Vec::<u64>::new());

    let mut dropped = pool.evict_idle();
    while dropped.is_empty() {
        dropped = pool.evict_idle();
    }
    assert_eq!(dropped, vec![0]);
    assert_eq!(pool.idle_count(), 0);
    assert!(pool.now().is_at_or_after(&before));
}

#[test]
fn the_later_of_two_moments() {
    for (one, other) in [(3u64, 8u64), (8, 3), (8, 8)] {
        let later = at(one).later_of(at(other));
        assert!(later.is_at_or_after(&at(8)) && at(8).is_at_or_after(&later));
    }
}

fn parts(span: Span) -> (u64, u32) {
    (span.as_secs(), span.subsec_nanos())
}

#[test]
fn the_check_interval_is_a_third_of_the_timeout_and_at_least_fifteen_seconds() {
    assert_eq!(parts(check_interval(Span::from_secs(0))), (15, 0));
    assert_eq!(parts(check_interval(Span::from_millis(100))), (15, 0));
    assert_eq!(parts(check_interval(Span::from_secs(45))), (15, 0));
    assert_eq!(parts(check_interval(Span::from_secs(50))), (16, 666_666_666));
    assert_eq!(parts(check_interval(Span::from_millis(48_000))), (16, 0));
    assert_eq!(parts(check_interval(Span::from_secs(300))), (100, 0));
    assert_eq!(
        parts(check_interval(Span::new(u64::MAX, 999_999_999))),
        (6148914691236517205, 333_333_333)
    );
}

#[test]
fn only_a_pool_with_an_eviction_thread_has_an_interval() {
    let timeout = Span::new(300, 999_999_999);
    let with = DefaultBallistaClientPool::with_eviction_thread(timeout);
    assert_eq!(parts(with.eviction_interval().unwrap()), (100, 333_333_333));
    assert_eq!(with.idle_count(), 0);
    let enabled = DefaultBallistaClientPool::new(timeout, true);
    assert_eq!(parts(enabled.eviction_interval().unwrap()), (100, 333_333_333));
    let disabled = DefaultBallistaClientPool::new(timeout, false);
    assert!(disabled.eviction_interval().is_none());
}

#[test]
fn the_eviction_task_ends_with_the_pool() {
    assert_eq!(eviction_step(true), EvictionStep::Evict);
    assert_eq!(eviction_step(false), EvictionStep::Stop);
}

#[test]
fn an_endpoint_hands_out_its_permits() {
    let mut endpoint = Endpoint::new();
    assert_eq!(endpoint.idle_len(), 0);
    assert!(!endpoint.in_use());
    for _ in 0..64 {
        assert!(matches!(endpoint.checkout(), Turn::Open));
        assert!(endpoint.in_use());
    }
    assert!(matches!(endpoint.checkout(), Turn::Wait));
    endpoint.free_permit();
    assert!(matches!(endpoint.checkout(), Turn::Open));
    endpoint.give_back(7, at(5));
    assert_eq!(endpoint.idle_len(), 1);
    assert!(matches!(endpoint.checkout(), Turn::Reuse(7)));
}

#[test]
fn an_endpoint_without_connections_is_not_kept() {
    let timeout = Span::from_secs(10);
    let mut dropped = vec![99];

    let mut unused = Endpoint::new();
    assert!(!unused.evict(at(20), timeout, &mut dropped));

    let mut busy = Endpoint::new();
    busy.checkout();
    assert!(busy.evict(at(20), timeout, &mut dropped));
    busy.give_back(5, at(9));
    assert!(!busy.evict(at(20), timeout, &mut dropped));
    assert_eq!(dropped, vec![99, 5]);

    let mut fresh = Endpoint::new();
    fresh.checkout();
    fresh.give_back(6, at(10));
    assert!(fresh.evict(at(20), timeout, &mut dropped));
    assert_eq!(fresh.idle_len(), 1);
    assert_eq!(dropped, vec![99, 5]);
}

#[test]
fn moments_reach_as_far_as_a_count_of_seconds() {
    let origin = at(0);
    let farthest = Span::new(9_223_372_036_854_775_808, 0);
    assert!(origin.checked_sub(farthest).is_some());
    assert!(origin.checked_sub(Span::new(9_223_372_036_854_775_808, 1)).is_none());
    assert!(at(1).checked_sub(Span::new(9_223_372_036_854_775_808, 1)).is_some());

    let earlier = at(10).checked_sub(Span::from_millis(2_500)).unwrap();
    let expected = moment_after_origin(7, 500_000_000);
    assert!(earlier.is_at_or_after(&expected) && expected.is_at_or_after(&earlier));

    let last = at(u64::MAX);
    let end = moment_after_origin(9_223_372_036_854_775_807, 999_999_999);
    assert!(last.is_at_or_after(&end) && end.is_at_or_after(&last));
    assert_eq!(Span::from_millis(2_999).as_secs(), 2);
}
