//! One endpoint of the pool: its idle connections, and the permits that bound
//! how many connections are checked out at once.

use crate::time::{is_moment, Moment, Span};
use tokio::sync::Semaphore;
use vstd::prelude::*;

verus! {

/// Maximum number of connections held (and concurrently checked out) per endpoint.
pub const MAX_CONNECTIONS_PER_ENDPOINT: usize = 64;

/// The semaphore that hands out an endpoint's permits.
#[verifier::external_type_specification]
#[verifier::external_body]
pub struct ExSemaphore(tokio::sync::Semaphore);

/// The permits that a semaphore holds and has not handed out.
pub uninterp spec fn permits_held(semaphore: tokio::sync::Semaphore) -> nat;

/// `Semaphore::new`: a semaphore that holds `permits` permits. It panics on more
/// than `usize::MAX / 8` of them.
#[verifier::external_body]
fn new_semaphore(permits: usize) -> (semaphore: Semaphore)
    requires
        permits <= usize::MAX / 8,
    ensures
        permits_held(semaphore) == permits,
{
    Semaphore::new(permits)
}

/// `Semaphore::available_permits`: the number of permits that the semaphore holds.
#[verifier::external_body]
fn available_permits(semaphore: &mut Semaphore) -> (available: usize)
    ensures
        available == permits_held(*old(semaphore)),
        permits_held(*final(semaphore)) == permits_held(*old(semaphore)),
{
    semaphore.available_permits()
}

/// `Semaphore::forget_permits`: takes up to `count` permits out of the semaphore
/// and returns how many it took.
#[verifier::external_body]
fn forget_permits(semaphore: &mut Semaphore, count: usize) -> (taken: usize)
    ensures
        taken == if permits_held(*old(semaphore)) < count {
            permits_held(*old(semaphore))
        } else {
            count as nat
        },
        permits_held(*final(semaphore)) == permits_held(*old(semaphore)) - taken,
{
    semaphore.forget_permits(count)
}

/// `Semaphore::add_permits`: puts `count` permits into the semaphore. It panics
/// where the semaphore would then hold more than `usize::MAX / 8` permits. The
/// exclusive borrow keeps everyone from waiting for the permits.
#[verifier::external_body]
fn add_permits(semaphore: &mut Semaphore, count: usize)
    requires
        permits_held(*old(semaphore)) + count <= usize::MAX / 8,
    ensures
        permits_held(*final(semaphore)) == permits_held(*old(semaphore)) + count,
{
    semaphore.add_permits(count)
}

/// A returned, ready-to-reuse connection as a mathematical value.
pub struct IdleState {
    /// Number of the connection.
    pub client: u64,
    /// When the connection was returned, in nanoseconds on the pool's clock.
    pub since: int,
}

/// An endpoint as a mathematical value.
#[verifier::ext_equal]
pub struct EndpointState {
    /// Idle connections, the one returned last at the end.
    pub idle: Seq<IdleState>,
    /// Permits that are not handed out.
    pub available: int,
}

impl EndpointState {
    /// An endpoint without connections.
    pub open spec fn fresh() -> EndpointState {
        EndpointState { idle: Seq::empty(), available: MAX_CONNECTIONS_PER_ENDPOINT as int }
    }

    /// How many connections are checked out, or about to be opened.
    pub open spec fn checked_out(self) -> int {
        MAX_CONNECTIONS_PER_ENDPOINT - self.available
    }

    /// No more connections are checked out than there are permits, idle and
    /// checked-out connections together are not more than that either, and every
    /// idle connection was returned at some moment.
    pub open spec fn wf(self) -> bool {
        &&& 0 <= self.checked_out()
        &&& self.idle.len() + self.checked_out() <= MAX_CONNECTIONS_PER_ENDPOINT
        &&& forall|at: int|
            0 <= at < self.idle.len() ==> is_moment((#[trigger] self.idle[at]).since)
    }

    /// The endpoint after a permit was handed out, and with it the idle
    /// connection that was returned last, if there is one.
    pub open spec fn after_checkout(self) -> EndpointState {
        EndpointState {
            idle: if self.idle.len() > 0 {
                self.idle.drop_last()
            } else {
                self.idle
            },
            available: self.available - 1,
        }
    }

    /// The endpoint after the connection `client` came back at `since`, and with
    /// it its permit.
    pub open spec fn after_return(self, client: u64, since: int) -> EndpointState {
        EndpointState {
            idle: self.idle.push(IdleState { client, since }),
            available: self.available + 1,
        }
    }

    /// The endpoint after a permit came back without a connection.
    pub open spec fn after_discard(self) -> EndpointState {
        EndpointState { idle: self.idle, available: self.available + 1 }
    }

    /// The idle connections that were returned at `deadline` or later.
    pub open spec fn survivors(self, deadline: int) -> Seq<IdleState> {
        self.idle.filter(|entry: IdleState| entry.since >= deadline)
    }

    /// The idle connections that were returned before `deadline`.
    pub open spec fn expired(self, deadline: int) -> Seq<IdleState> {
        self.idle.filter(|entry: IdleState| entry.since < deadline)
    }

    /// The endpoint without the connections that expire at `deadline`.
    pub open spec fn after_evict(self, deadline: int) -> EndpointState {
        EndpointState { idle: self.survivors(deadline), available: self.available }
    }

    /// Whether the endpoint has connections left after the eviction at
    /// `deadline`, be they idle or checked out.
    pub open spec fn kept(self, deadline: int) -> bool {
        self.survivors(deadline).len() > 0 || self.checked_out() > 0
    }
}

/// The numbers of the connections in `entries`, in their order.
pub open spec fn clients(entries: Seq<IdleState>) -> Seq<u64> {
    entries.map_values(|entry: IdleState| entry.client)
}

/// A returned, ready-to-reuse connection.
#[derive(Clone, Copy, Debug)]
pub struct IdleEntry {
    /// Number of the connection.
    pub client: u64,
    /// When the connection was returned.
    pub idle_since: Moment,
}

impl IdleEntry {
    /// The connection as a mathematical value.
    pub open spec fn view(&self) -> IdleState {
        IdleState { client: self.client, since: self.idle_since@ }
    }
}

/// What an endpoint has for one more user.
#[derive(Clone, Copy, Debug)]
pub enum Turn {
    /// The idle connection of this number.
    Reuse(u64),
    /// A permit to open a new connection.
    Open,
    /// Nothing: all permits are in use.
    Wait,
}

/// Per-endpoint state: a bounded set of reusable connections.
pub struct Endpoint {
    /// Returned, ready-to-reuse connections.
    idle: Vec<IdleEntry>,
    /// Bounds the number of concurrently checked-out connections.
    permits: Semaphore,
}

impl Endpoint {
    /// The endpoint as a mathematical value.
    pub closed spec fn view(&self) -> EndpointState {
        EndpointState {
            idle: self.idle@.map_values(|entry: IdleEntry| entry@),
            available: permits_held(self.permits) as int,
        }
    }

    /// An endpoint without connections, all of whose permits are free.
    pub fn new() -> (endpoint: Endpoint)
        ensures
            endpoint@ == EndpointState::fresh(),
            endpoint@.idle.len() == 0,
            endpoint@.available == MAX_CONNECTIONS_PER_ENDPOINT,
    {
        let endpoint = Endpoint {
            idle: Vec::new(),
            permits: new_semaphore(MAX_CONNECTIONS_PER_ENDPOINT),
        };
        assert(endpoint@ =~= EndpointState::fresh());
        endpoint
    }

    /// The number of idle connections.
    pub fn idle_len(&self) -> (len: usize)
        ensures
            len == self@.idle.len(),
    {
        self.idle.len()
    }

    /// Whether a connection is checked out, or about to be opened.
    pub fn in_use(&mut self) -> (in_use: bool)
        ensures
            in_use == (old(self)@.checked_out() > 0),
            in_use == (old(self)@.available < MAX_CONNECTIONS_PER_ENDPOINT),
            final(self)@ == old(self)@,
    {
        available_permits(&mut self.permits) < MAX_CONNECTIONS_PER_ENDPOINT
    }

    /// Hands out a permit, with the idle connection that was returned last if
    /// there is one.
    pub fn checkout(&mut self) -> (turn: Turn)
        ensures
            turn is Wait <==> old(self)@.available == 0,
            turn is Reuse <==> old(self)@.available != 0 && old(self)@.idle.len() > 0,
            turn matches Turn::Reuse(client) ==> client == old(self)@.idle.last().client,
            turn is Wait ==> final(self)@ == old(self)@,
            turn !is Wait ==> final(self)@ == old(self)@.after_checkout(),
            turn !is Wait ==> final(self)@.available == old(self)@.available - 1,
            turn is Reuse ==> final(self)@.idle == old(self)@.idle.drop_last(),
            turn is Open ==> final(self)@.idle == old(self)@.idle,
    {
        if forget_permits(&mut self.permits, 1) == 0 {
            return Turn::Wait;
        }
        match self.idle.pop() {
            Some(entry) => {
                assert(self@ =~= old(self)@.after_checkout());
                Turn::Reuse(entry.client)
            },
            None => {
                assert(self@ =~= old(self)@.after_checkout());
                Turn::Open
            },
        }
    }

    /// Takes a connection back and makes it idle from `now` on, then frees its
    /// permit.
    pub fn give_back(&mut self, client: u64, now: Moment)
        requires
            old(self)@.checked_out() > 0,
        ensures
            final(self)@ == old(self)@.after_return(client, now@),
            final(self)@.idle == old(self)@.idle.push(IdleState { client, since: now@ }),
            final(self)@.available == old(self)@.available + 1,
    {
        self.idle.push(IdleEntry { client, idle_since: now });
        self.free_permit();
        assert(self@ =~= old(self)@.after_return(client, now@));
    }

    /// Frees a permit whose connection does not come back.
    pub fn free_permit(&mut self)
        requires
            old(self)@.checked_out() > 0,
        ensures
            final(self)@ == old(self)@.after_discard(),
            final(self)@.idle == old(self)@.idle,
            final(self)@.available == old(self)@.available + 1,
    {
        add_permits(&mut self.permits, 1);
        assert(self@ =~= old(self)@.after_discard());
    }

    /// Drops the connections that at `now` have been idle for longer than
    /// `timeout`, appends their numbers to `dropped`, and returns whether the
    /// endpoint still has a connection, be it idle or checked out.
    pub fn evict(&mut self, now: Moment, timeout: Span, dropped: &mut Vec<u64>) -> (keep: bool)
        ensures
            final(self)@ == old(self)@.after_evict(now@ - timeout@),
            final(dropped)@ == old(dropped)@ + clients(old(self)@.expired(now@ - timeout@)),
            keep == old(self)@.kept(now@ - timeout@),
            final(self)@.available == old(self)@.available,
            keep == (final(self)@.idle.len() > 0 || final(self)@.available
                < MAX_CONNECTIONS_PER_ENDPOINT),
    {
        let ghost deadline = now@ - timeout@;
        let ghost before = self@.idle;
        let ghost fresh = |entry: IdleState| entry.since >= deadline;
        let ghost stale = |entry: IdleState| entry.since < deadline;
        let count: usize = self.idle.len();
        let mut kept: Vec<IdleEntry> = Vec::new();
        let mut at: usize = 0;
        while at < count
            invariant
                at <= count,
                count == self.idle.len(),
                *self == *old(self),
                before == self@.idle,
                before.len() == count,
                deadline == now@ - timeout@,
                fresh == (|entry: IdleState| entry.since >= deadline),
                stale == (|entry: IdleState| entry.since < deadline),
                kept@.map_values(|entry: IdleEntry| entry@) == before.take(at as int).filter(fresh),
                dropped@ == old(dropped)@ + clients(before.take(at as int).filter(stale)),
            decreases count - at,
        {
            let entry = self.idle[at];
            proof {
                let seen = before.take(at as int);
                assert(before.take(at + 1) =~= seen.push(entry@));
                seen.lemma_filter_push(entry@, fresh);
                seen.lemma_filter_push(entry@, stale);
            }
            if now.is_later_by_more_than(&entry.idle_since, &timeout) {
                dropped.push(entry.client);
            } else {
                kept.push(entry);
            }
            at = at + 1;
        }
        proof {
            assert(before.take(count as int) =~= before);
        }
        self.idle = kept;
        let in_use: bool = self.in_use();
        self.idle.len() > 0 || in_use
    }
}

} // verus!
