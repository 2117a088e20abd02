//! The pool: endpoints by host, port and settings, and what is done with the
//! connections to them.

use crate::config::{
    copy_key, endpoint_id, endpoint_key, key_id, ConnectRequest, EndpointId, EndpointKey,
    GrpcClientConfig,
};
use crate::endpoint::{Endpoint, EndpointState, Turn};
use crate::state::{
    lemma_empty_pool_is_wf, lemma_permit_is_held, lemma_step_keeps_wf, Event, PoolState,
};
use crate::table::{
    count_idle, endpoint_in, endpoints_held, evicts, expired_clients, idle_at, is_idle,
    lists_endpoints, new_table, put_endpoint, retain_endpoints, take_endpoint, total_idle, EndpointTable,
};
use crate::time::{moment_after_origin, shown, Clock, Moment, Span, MAX_MOMENT_NANOS, NANOS_PER_SEC};
use dashmap::DashMap;
use std::time::Instant;
use vstd::prelude::*;

verus! {

/// The least number of seconds between two rounds of eviction.
pub const MIN_CHECK_INTERVAL_SECS: u64 = 15;

/// The nanoseconds between two rounds of eviction for connections that may be idle
/// for `timeout` nanoseconds.
pub open spec fn check_interval_nanos(timeout: int) -> int {
    if timeout / 3 >= MIN_CHECK_INTERVAL_SECS * NANOS_PER_SEC {
        timeout / 3
    } else {
        MIN_CHECK_INTERVAL_SECS * NANOS_PER_SEC
    }
}

/// The time between two rounds of eviction: a third of the idle timeout, but not
/// less than [`MIN_CHECK_INTERVAL_SECS`].
pub fn check_interval(idle_timeout: Span) -> (interval: Span)
    ensures
        interval@ == check_interval_nanos(idle_timeout@),
{
    let third = idle_timeout.third();
    let least = Span::from_secs(MIN_CHECK_INTERVAL_SECS);
    if third.is_at_least(&least) {
        third
    } else {
        least
    }
}

/// What the background task does at a tick.
#[derive(Clone, Copy, Debug, PartialEq, Eq, Structural)]
pub enum EvictionStep {
    /// Evict idle connections, then wait for the next tick.
    Evict,
    /// End: there is no pool any more.
    Stop,
}

/// What the background task does at a tick, given whether the pool still exists.
pub fn eviction_step(pool_exists: bool) -> (step: EvictionStep)
    ensures
        step == if pool_exists {
            EvictionStep::Evict
        } else {
            EvictionStep::Stop
        },
{
    if pool_exists {
        EvictionStep::Evict
    } else {
        EvictionStep::Stop
    }
}

/// A connection that is checked out of the pool.
///
/// It goes back with [`DefaultBallistaClientPool::release`], or is given up with
/// [`DefaultBallistaClientPool::discard`].
#[derive(Debug)]
pub struct PooledClient {
    endpoint: EndpointKey,
    client: u64,
}

impl PooledClient {
    /// The endpoint that the connection leads to.
    pub closed spec fn id(self) -> EndpointId {
        key_id(self.endpoint)
    }

    /// The number of the connection.
    pub closed spec fn number(self) -> u64 {
        self.client
    }

    /// The number of the connection.
    pub fn client(&self) -> (client: u64)
        ensures
            client == self.number(),
    {
        self.client
    }

    /// The key of the endpoint that the connection leads to.
    pub fn endpoint(&self) -> (endpoint: &EndpointKey)
        ensures
            key_id(*endpoint) == self.id(),
    {
        &self.endpoint
    }
}

/// The permit to open one connection to an endpoint.
///
/// It ends with [`DefaultBallistaClientPool::opened`].
#[derive(Debug)]
pub struct OpenSlot {
    endpoint: EndpointKey,
}

impl OpenSlot {
    /// The endpoint that the connection will lead to.
    pub closed spec fn id(self) -> EndpointId {
        key_id(self.endpoint)
    }

    /// The key of the endpoint that the connection will lead to.
    pub fn endpoint(&self) -> (endpoint: &EndpointKey)
        ensures
            key_id(*endpoint) == self.id(),
    {
        &self.endpoint
    }
}

/// What the pool has for someone who wants a connection.
#[derive(Debug)]
pub enum Checkout {
    /// An idle connection, now checked out.
    Reuse(PooledClient),
    /// The permit to open a connection, and what to open it with.
    Open(OpenSlot, ConnectRequest),
    /// Nothing until a connection to the endpoint comes back or is given up.
    Wait,
}

/// Default pool implementation.
///
/// Keeps up to [`MAX_CONNECTIONS_PER_ENDPOINT`] reusable connections per host,
/// port and settings, each handed out to one user at a time. Connections go by
/// number: the pool numbers them as they are opened.
///
/// [`MAX_CONNECTIONS_PER_ENDPOINT`]: crate::endpoint::MAX_CONNECTIONS_PER_ENDPOINT
pub struct DefaultBallistaClientPool {
    endpoints: DashMap<EndpointKey, Endpoint>,
    leases: Ghost<Map<u64, EndpointId>>,
    next_client: u64,
    idle_timeout: Span,
    eviction_interval: Option<Span>,
    clock: Clock,
    latest: Moment,
}

impl DefaultBallistaClientPool {
    /// The endpoints of the pool.
    pub closed spec fn view(&self) -> EndpointTable {
        endpoints_held(self.endpoints)
    }

    /// The connections that are checked out, by number, and where each leads to.
    pub closed spec fn leases(self) -> Map<u64, EndpointId> {
        self.leases@
    }

    /// The numbers of the connections that are checked out.
    pub open spec fn leased(self) -> Set<u64> {
        self.leases().dom()
    }

    /// How many connections have been opened: the number of the next one.
    pub closed spec fn opened_count(self) -> int {
        self.next_client as int
    }

    /// The pool as a mathematical value.
    pub open spec fn state(self) -> PoolState {
        PoolState { table: self@, leases: self.leases(), opened: self.opened_count() }
    }

    /// How long a connection may be idle, in nanoseconds.
    pub closed spec fn timeout(self) -> int {
        self.idle_timeout@
    }

    /// The time between two rounds of eviction by the background task, if the pool
    /// is to have one.
    pub closed spec fn interval(self) -> Option<Span> {
        self.eviction_interval
    }

    /// The time from which the moments of the pool's clock count.
    pub closed spec fn clock_origin(self) -> Instant {
        self.clock.origin()
    }

    /// The latest moment at which the pool took a connection back or evicted by
    /// its own clock.
    pub closed spec fn latest(self) -> int {
        self.latest@
    }

    /// What the pool's clock has read when the pool took a connection back or
    /// evicted by it: the time since the clock's origin, in whole seconds and
    /// nanoseconds, the last reading at the end.
    pub closed spec fn readings(self) -> Seq<(u64, u32)> {
        self.clock.readings()
    }

    /// Since `before`, the pool has read its clock once, and goes by the moment that
    /// the clock showed, or by the latest before it where that one is later.
    pub open spec fn read_the_clock(self, before: Self) -> bool {
        &&& self.readings().len() == before.readings().len() + 1
        &&& self.readings().drop_last() == before.readings()
        &&& self.readings().last().1 < NANOS_PER_SEC
        &&& self.latest() == if before.latest() >= shown(self.readings().last()) {
            before.latest()
        } else {
            shown(self.readings().last())
        }
    }

    /// Every endpoint keeps to its bounds, and every connection is in one place.
    pub open spec fn wf(self) -> bool {
        self.state().wf()
    }

    /// The endpoint of this name.
    pub open spec fn endpoint(self, id: EndpointId) -> EndpointState {
        endpoint_in(self@, id)
    }

    /// The connection is checked out of this pool.
    pub open spec fn holds(self, client: PooledClient) -> bool {
        self.state().holds(client.id(), client.number())
    }

    /// The two pools evict alike, and tell time by one clock.
    pub open spec fn same_settings(self, other: Self) -> bool {
        &&& self.timeout() == other.timeout()
        &&& self.interval() == other.interval()
        &&& self.clock_origin() == other.clock_origin()
    }

    /// Create a pool that evicts connections idle longer than `idle_timeout`.
    pub fn with_eviction_thread(idle_timeout: Span) -> (pool: Self)
        ensures
            pool.wf(),
            pool.state() == PoolState::empty(),
            pool.latest() == 0,
            pool.readings() == Seq::<(u64, u32)>::empty(),
            pool.timeout() == idle_timeout@,
            pool.interval() matches Some(interval) && interval@ == check_interval_nanos(
                idle_timeout@,
            ),
    {
        Self::new(idle_timeout, true)
    }

    /// Create a pool that evicts connections idle longer than `idle_timeout`,
    /// if `enable_eviction_thread` is enabled.
    pub fn new(idle_timeout: Span, enable_eviction_thread: bool) -> (pool: Self)
        ensures
            pool.wf(),
            pool.state() == PoolState::empty(),
            pool.latest() == 0,
            pool.readings() == Seq::<(u64, u32)>::empty(),
            pool.timeout() == idle_timeout@,
            pool.interval() is Some <==> enable_eviction_thread,
            pool.interval() matches Some(interval) ==> interval@ == check_interval_nanos(
                idle_timeout@,
            ),
    {
        let eviction_interval: Option<Span> = if enable_eviction_thread {
            Some(check_interval(idle_timeout))
        } else {
            None
        };
        let pool = DefaultBallistaClientPool {
            endpoints: new_table(),
            leases: Ghost(Map::empty()),
            next_client: 0,
            idle_timeout,
            eviction_interval,
            clock: Clock::start(),
            latest: moment_after_origin(0, 0),
        };
        proof {
            lemma_empty_pool_is_wf();
            assert(pool.state() =~= PoolState::empty());
        }
        pool
    }

    /// The time between two rounds of eviction by the background task, or nothing
    /// where the pool is to have no such task.
    pub fn eviction_interval(&self) -> (interval: Option<Span>)
        ensures
            interval == self.interval(),
    {
        self.eviction_interval
    }

    /// How many connections have been opened.
    pub fn connections_opened(&self) -> (count: u64)
        ensures
            count == self.opened_count(),
    {
        self.next_client
    }

    /// The current moment on the clock of the pool, which is not before the latest
    /// one that the pool went by.
    pub fn now(&self) -> (now: Moment)
        ensures
            0 <= now@ <= MAX_MOMENT_NANOS,
            self.latest() <= now@,
    {
        let mut clock = self.clock;
        self.latest.later_of(clock.now())
    }

    /// Reads the clock, and goes by its moment from now on.
    fn tick(&mut self) -> (now: Moment)
        ensures
            0 <= now@ <= MAX_MOMENT_NANOS,
            old(self).latest() <= now@,
            final(self).latest() == now@,
            final(self).read_the_clock(*old(self)),
            final(self).state() == old(self).state(),
            final(self).same_settings(*old(self)),
    {
        let now = self.latest.later_of(self.clock.now());
        self.latest = now;
        now
    }

    /// Total number of idle connections currently held across all endpoints.
    pub fn idle_count(&self) -> (count: usize)
        requires
            self.wf(),
            total_idle(self@) <= usize::MAX,
        ensures
            count == total_idle(self@),
    {
        match count_idle(&self.endpoints) {
            Some(count) => count,
            None => 0,
        }
    }

    /// Total number of idle connections currently held across all endpoints, or
    /// nothing where a `usize` cannot count them.
    pub fn checked_idle_count(&self) -> (count: Option<usize>)
        requires
            self.wf(),
        ensures
            count is Some <==> total_idle(self@) <= usize::MAX,
            count matches Some(total) ==> total == total_idle(self@),
    {
        count_idle(&self.endpoints)
    }

    /// Whether a connection to the endpoint is checked out, or about to be opened.
    pub fn in_use(&mut self, endpoint: &EndpointKey) -> (in_use: bool)
        ensures
            in_use == (old(self).endpoint(key_id(*endpoint)).checked_out() > 0),
            final(self).state() == old(self).state(),
            final(self).same_settings(*old(self)),
            final(self).latest() == old(self).latest(),
            final(self).readings() == old(self).readings(),
    {
        match take_endpoint(&mut self.endpoints, endpoint) {
            Some(mut found) => {
                let in_use: bool = found.in_use();
                put_endpoint(&mut self.endpoints, copy_key(endpoint), found);
                assert(self@ =~= old(self)@);
                in_use
            },
            None => {
                assert(self@ =~= old(self)@);
                false
            },
        }
    }

    /// Checks out a connection to `host` and `port` with the settings `config`:
    /// the idle one that was returned last or else, if a permit is free, one that
    /// is still to be opened.
    pub fn acquire(&mut self, host: &str, port: u16, config: &GrpcClientConfig) -> (checkout:
        Checkout)
        requires
            old(self).wf(),
        ensures
            final(self).wf(),
            final(self).same_settings(*old(self)),
            final(self).latest() == old(self).latest(),
            final(self).readings() == old(self).readings(),
            ({
                let id = endpoint_id(host@, port, *config);
                match checkout {
                    Checkout::Reuse(client) => {
                        &&& client.id() == id
                        &&& old(self).state().step(
                            Event::Reused { id, number: client.number() },
                            final(self).state(),
                        )
                        &&& old(self).state().opening_follows(
                            Event::Reused { id, number: client.number() },
                            final(self).state(),
                        )
                        &&& !old(self).leased().contains(client.number())
                        &&& !is_idle(final(self)@, client.number())
                        &&& final(self).leased() == old(self).leased().insert(client.number())
                        &&& final(self).holds(client)
                    },
                    Checkout::Open(slot, request) => {
                        &&& slot.id() == id
                        &&& request.asks_for(host@, port, *config)
                        &&& request.host@ == host@
                        &&& request.port == port
                        &&& request.max_message_size == config.max_message_size
                        &&& request.use_tls == config.use_tls
                        &&& request.io_retries_times == config.io_retries_times
                        &&& request.io_retry_wait_time_ms == config.io_retry_wait_time_ms
                        &&& old(self).state().step(Event::SlotTaken { id }, final(self).state())
                        &&& old(self).state().opening_follows(
                            Event::SlotTaken { id },
                            final(self).state(),
                        )
                    },
                    Checkout::Wait => {
                        &&& old(self).endpoint(id).available == 0
                        &&& old(self)@.contains_key(id)
                        &&& old(self)@[id].available == 0
                        &&& final(self).state() == old(self).state()
                    },
                }
            }),
    {
        let key = endpoint_key(host, port, config);
        let ghost id = key_id(key);
        let ghost before = self.state();
        let mut endpoint = match take_endpoint(&mut self.endpoints, &key) {
            Some(found) => found,
            None => Endpoint::new(),
        };
        assert(endpoint@ == before.endpoint(id));
        let turn = endpoint.checkout();
        put_endpoint(&mut self.endpoints, copy_key(&key), endpoint);
        assert(self@ =~= before.table.insert(id, endpoint@));
        match turn {
            Turn::Reuse(client) => {
                proof {
                    self.leases@ = self.leases@.insert(client, id);
                    assert(self.state() =~= before.after_checkout(id));
                    lemma_step_keeps_wf(before, Event::Reused { id, number: client }, self.state());
                    assert(is_idle(before.table, client)) by {
                        assert(idle_at(before.table, id, before.endpoint(id).idle.len() - 1));
                    }
                    assert(self.leases().contains_key(client));
                    assert(self.leased() =~= old(self).leased().insert(client));
                }
                Checkout::Reuse(PooledClient { endpoint: key, client })
            },
            Turn::Open => {
                proof {
                    assert(self.state() =~= before.after_checkout(id));
                    lemma_step_keeps_wf(before, Event::SlotTaken { id }, self.state());
                }
                let request = ConnectRequest::new(host, port, config);
                Checkout::Open(OpenSlot { endpoint: key }, request)
            },
            Turn::Wait => {
                proof {
                    assert(self@ =~= before.table);
                }
                Checkout::Wait
            },
        }
    }

    /// Ends the opening of a connection. One that was opened gets the next number
    /// and is checked out; the permit of one that was not is freed, and its error
    /// handed on.
    pub fn opened<E>(&mut self, slot: OpenSlot, outcome: Result<(), E>) -> (client: Result<
        PooledClient,
        E,
    >)
        requires
            old(self).wf(),
            old(self).state().opening(slot.id()) > 0,
            outcome is Ok ==> old(self).opened_count() < u64::MAX,
        ensures
            final(self).wf(),
            final(self).same_settings(*old(self)),
            final(self).latest() == old(self).latest(),
            final(self).readings() == old(self).readings(),
            match outcome {
                Ok(_) => {
                    &&& client matches Ok(pooled)
                    &&& pooled.id() == slot.id()
                    &&& old(self).state().step(
                        Event::Opened { id: slot.id(), number: pooled.number() },
                        final(self).state(),
                    )
                    &&& old(self).state().opening_follows(
                        Event::Opened { id: slot.id(), number: pooled.number() },
                        final(self).state(),
                    )
                    &&& !old(self).leased().contains(pooled.number())
                    &&& !is_idle(old(self)@, pooled.number())
                    &&& final(self).leased() == old(self).leased().insert(pooled.number())
                    &&& final(self).holds(pooled)
                },
                Err(error) => {
                    &&& client == Err::<PooledClient, E>(error)
                    &&& old(self).state().step(Event::Failed { id: slot.id() }, final(self).state())
                    &&& old(self).state().opening_follows(
                        Event::Failed { id: slot.id() },
                        final(self).state(),
                    )
                },
            },
    {
        let ghost before = self.state();
        let ghost id = slot.id();
        match outcome {
            Ok(_) => {
                let number: u64 = self.next_client;
                self.next_client = number + 1;
                proof {
                    self.leases@ = self.leases@.insert(number, id);
                    assert(self.state() =~= before.after_opening(id));
                    lemma_step_keeps_wf(before, Event::Opened { id, number }, self.state());
                    assert(!before.leases.contains_key(number));
                    assert(!is_idle(before.table, number));
                    assert(self.leased() =~= old(self).leased().insert(number));
                }
                Ok(PooledClient { endpoint: slot.endpoint, client: number })
            },
            Err(error) => {
                proof {
                    lemma_permit_is_held(before, id);
                }
                self.free_permit(slot.endpoint);
                proof {
                    assert(self.state() =~= before.after_failure(id));
                    lemma_step_keeps_wf(before, Event::Failed { id }, self.state());
                }
                Err(error)
            },
        }
    }

    /// Returns a connection to the idle ones of its endpoint, as of now, and frees
    /// its permit. Now is not before the latest moment that the pool went by.
    pub fn release(&mut self, client: PooledClient)
        requires
            old(self).wf(),
            old(self).holds(client),
        ensures
            final(self).wf(),
            final(self).same_settings(*old(self)),
            final(self).leased() == old(self).leased().remove(client.number()),
            forall|id: EndpointId| #[trigger]
                final(self).state().opening(id) == old(self).state().opening(id),
            0 <= final(self).latest() <= MAX_MOMENT_NANOS,
            old(self).latest() <= final(self).latest(),
            final(self).read_the_clock(*old(self)),
            old(self).state().step(
                Event::Returned {
                    id: client.id(),
                    number: client.number(),
                    now: final(self).latest(),
                },
                final(self).state(),
            ),
    {
        let now = self.tick();
        self.release_at(client, now);
    }

    /// Returns a connection to the idle ones of its endpoint, as of `now`, and
    /// frees its permit.
    pub fn release_at(&mut self, client: PooledClient, now: Moment)
        requires
            old(self).wf(),
            old(self).holds(client),
        ensures
            final(self).wf(),
            final(self).same_settings(*old(self)),
            final(self).latest() == old(self).latest(),
            final(self).readings() == old(self).readings(),
            final(self).leased() == old(self).leased().remove(client.number()),
            forall|id: EndpointId| #[trigger]
                final(self).state().opening(id) == old(self).state().opening(id),
            old(self).state().step(
                Event::Returned { id: client.id(), number: client.number(), now: now@ },
                final(self).state(),
            ),
    {
        let ghost before = self.state();
        let ghost id = client.id();
        let ghost number = client.number();
        proof {
            use_type_invariant(&now);
            lemma_permit_is_held(before, id);
        }
        if let Some(mut endpoint) = take_endpoint(&mut self.endpoints, &client.endpoint) {
            endpoint.give_back(client.client, now);
            put_endpoint(&mut self.endpoints, client.endpoint, endpoint);
        }
        proof {
            self.leases@ = self.leases@.remove(number);
            assert(self@ =~= before.table.insert(id, before.table[id].after_return(number, now@)));
            assert(self.state() =~= before.after_return(id, number, now@));
            lemma_step_keeps_wf(
                before,
                Event::Returned { id, number, now: now@ },
                self.state(),
            );
            assert(self.leased() =~= old(self).leased().remove(number));
        }
    }

    /// Gives a connection up: it is not returned, but its permit is freed.
    pub fn discard(&mut self, client: PooledClient)
        requires
            old(self).wf(),
            old(self).holds(client),
        ensures
            final(self).wf(),
            final(self).same_settings(*old(self)),
            final(self).latest() == old(self).latest(),
            final(self).readings() == old(self).readings(),
            final(self).leased() == old(self).leased().remove(client.number()),
            forall|id: EndpointId| #[trigger]
                final(self).state().opening(id) == old(self).state().opening(id),
            old(self).state().step(
                Event::Discarded { id: client.id(), number: client.number() },
                final(self).state(),
            ),
    {
        let ghost before = self.state();
        let ghost id = client.id();
        let ghost number = client.number();
        proof {
            lemma_permit_is_held(before, id);
        }
        self.free_permit(client.endpoint);
        proof {
            self.leases@ = self.leases@.remove(number);
            assert(self.state() =~= before.after_discard(id, number));
            lemma_step_keeps_wf(before, Event::Discarded { id, number }, self.state());
            assert(self.leased() =~= old(self).leased().remove(number));
        }
    }

    fn free_permit(&mut self, key: EndpointKey)
        requires
            old(self).wf(),
            old(self)@.contains_key(key_id(key)),
            old(self)@[key_id(key)].checked_out() > 0,
        ensures
            final(self)@ == old(self)@.insert(
                key_id(key),
                old(self)@[key_id(key)].after_discard(),
            ),
            final(self).leases() == old(self).leases(),
            final(self).opened_count() == old(self).opened_count(),
            final(self).same_settings(*old(self)),
            final(self).latest() == old(self).latest(),
            final(self).readings() == old(self).readings(),
    {
        let ghost id = key_id(key);
        if let Some(mut endpoint) = take_endpoint(&mut self.endpoints, &key) {
            endpoint.free_permit();
            put_endpoint(&mut self.endpoints, key, endpoint);
        }
        assert(self@ =~= old(self)@.insert(id, old(self)@[id].after_discard()));
    }

    /// Drops the connections that at `now` have been idle for longer than the
    /// idle timeout, so the pool shrinks under low utilization, and returns their
    /// numbers. An endpoint stays while it has idle connections or connections
    /// checked out.
    pub fn evict_at(&mut self, now: Moment) -> (dropped: Vec<u64>)
        requires
            old(self).wf(),
        ensures
            final(self).wf(),
            final(self).same_settings(*old(self)),
            final(self).latest() == old(self).latest(),
            final(self).readings() == old(self).readings(),
            forall|id: EndpointId| #[trigger]
                final(self).state().opening(id) == old(self).state().opening(id),
            evicts(old(self)@, final(self)@, dropped@, now@ - old(self).timeout()),
            old(self).state().step(
                Event::Evicted { deadline: now@ - old(self).timeout() },
                final(self).state(),
            ),
    {
        let ghost before = self.state();
        let ghost deadline = now@ - self.timeout();
        let mut dropped: Vec<u64> = Vec::new();
        retain_endpoints(&mut self.endpoints, now, self.idle_timeout, &mut dropped);
        proof {
            let order = choose|order: Seq<EndpointId>|
                lists_endpoints(order, old(self)@) && dropped@ == Seq::<u64>::empty()
                    + #[trigger] expired_clients(old(self)@, order, deadline);
            assert(dropped@ =~= expired_clients(old(self)@, order, deadline));
            assert(self.state() =~= before.after_evict(deadline));
            lemma_step_keeps_wf(before, Event::Evicted { deadline }, self.state());
        }
        dropped
    }

    /// Drops the connections that have now been idle for longer than the idle
    /// timeout, and returns their numbers. Now is not before the latest moment that
    /// the pool went by.
    pub fn evict_idle(&mut self) -> (dropped: Vec<u64>)
        requires
            old(self).wf(),
        ensures
            final(self).wf(),
            final(self).same_settings(*old(self)),
            forall|id: EndpointId| #[trigger]
                final(self).state().opening(id) == old(self).state().opening(id),
            0 <= final(self).latest() <= MAX_MOMENT_NANOS,
            old(self).latest() <= final(self).latest(),
            final(self).read_the_clock(*old(self)),
            evicts(
                old(self)@,
                final(self)@,
                dropped@,
                final(self).latest() - old(self).timeout(),
            ),
            old(self).state().step(
                Event::Evicted { deadline: final(self).latest() - old(self).timeout() },
                final(self).state(),
            ),
    {
        let now = self.tick();
        self.evict_at(now)
    }
}

} // verus!
