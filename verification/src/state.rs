//! The pool as a mathematical value, and the steps that it takes.

use crate::config::EndpointId;
use crate::endpoint::EndpointState;
use crate::laws::{
    law_checkout_and_discard_make_nothing_idle, law_eviction_makes_nothing_idle,
    law_eviction_spares_checked_out_connections, law_return_makes_one_connection_idle,
    law_reused_connection_is_exclusive,
};
use crate::table::{
    endpoint_in, idle_at, idle_once, is_idle, lemma_evict_keeps_wf, table_after_evict, table_wf,
    EndpointTable,
};
use crate::time::is_moment;
use vstd::prelude::*;

verus! {

/// The numbers of the connections to the endpoint `id` among `leases`.
pub open spec fn leases_of(leases: Map<u64, EndpointId>, id: EndpointId) -> Set<u64> {
    Set::new(|number: u64| leases.contains_key(number) && leases[number] == id)
}

/// A pool as a mathematical value.
#[verifier::ext_equal]
pub struct PoolState {
    /// The endpoints.
    pub table: EndpointTable,
    /// The connections that are checked out, by number, and where each leads to.
    pub leases: Map<u64, EndpointId>,
    /// How many connections have been opened: the number of the next one.
    pub opened: int,
}

/// One thing that happens to a pool.
pub enum Event {
    /// The idle connection `number` is handed out.
    Reused { id: EndpointId, number: u64 },
    /// A permit to open a connection is handed out.
    SlotTaken { id: EndpointId },
    /// A connection was opened, and is handed out as `number`.
    Opened { id: EndpointId, number: u64 },
    /// A connection could not be opened.
    Failed { id: EndpointId },
    /// The connection `number` is returned at `now`.
    Returned { id: EndpointId, number: u64, now: int },
    /// The connection `number` is given up.
    Discarded { id: EndpointId, number: u64 },
    /// Connections that were returned before `deadline` are dropped.
    Evicted { deadline: int },
}

impl Event {
    /// The connection of this number is handed out.
    pub open spec fn hands_out(self, client: u64) -> bool {
        ||| self matches Event::Reused { number, .. } && number == client
        ||| self matches Event::Opened { number, .. } && number == client
    }

    /// By how much the event changes the number of connections to the endpoint
    /// that are about to be opened.
    pub open spec fn opening_change(self, endpoint: EndpointId) -> int {
        match self {
            Event::SlotTaken { id } if id == endpoint => 1,
            Event::Opened { id, .. } if id == endpoint => -1,
            Event::Failed { id } if id == endpoint => -1,
            _ => 0,
        }
    }

    /// Whoever holds the connection of this number returns it or gives it up.
    pub open spec fn ends_lease(self, client: u64) -> bool {
        ||| self matches Event::Returned { number, .. } && number == client
        ||| self matches Event::Discarded { number, .. } && number == client
    }
}

impl PoolState {
    /// A pool without endpoints, from which nothing was ever checked out.
    pub open spec fn empty() -> PoolState {
        PoolState { table: EndpointTable::empty(), leases: Map::empty(), opened: 0 }
    }

    /// The endpoint of this name.
    pub open spec fn endpoint(self, id: EndpointId) -> EndpointState {
        endpoint_in(self.table, id)
    }

    /// The connection `number` is checked out, and leads to the endpoint `id`.
    pub open spec fn holds(self, id: EndpointId, number: u64) -> bool {
        self.leases.contains_key(number) && self.leases[number] == id
    }

    /// How many connections to the endpoint are about to be opened: the permits
    /// that are handed out and do not belong to a connection.
    pub open spec fn opening(self, id: EndpointId) -> int {
        self.endpoint(id).checked_out() - leases_of(self.leases, id).len()
    }

    /// Every endpoint keeps to its bounds, every connection that is checked out has
    /// a permit of its own, and a connection is in one place only: checked out
    /// once, or idle once. All their numbers have been given out already.
    pub open spec fn wf(self) -> bool {
        &&& table_wf(self.table)
        &&& self.leases.dom().finite()
        &&& forall|id: EndpointId| 0 <= #[trigger] self.opening(id)
        &&& idle_once(self.table)
        &&& forall|number: u64| #[trigger]
            self.leases.contains_key(number) ==> !is_idle(self.table, number) && number
                < self.opened
        &&& forall|number: u64| #[trigger] is_idle(self.table, number) ==> number < self.opened
        &&& 0 <= self.opened
    }

    /// The connection of this number once was in the pool, and is now neither idle
    /// nor checked out.
    pub open spec fn gone(self, number: u64) -> bool {
        &&& number < self.opened
        &&& !self.leases.contains_key(number)
        &&& !is_idle(self.table, number)
    }

    /// The pool after a permit of the endpoint was handed out, and with it the
    /// idle connection that was returned last, if there is one.
    pub open spec fn after_checkout(self, id: EndpointId) -> PoolState {
        let endpoint = self.endpoint(id);
        PoolState {
            table: self.table.insert(id, endpoint.after_checkout()),
            leases: if endpoint.idle.len() > 0 {
                self.leases.insert(endpoint.idle.last().client, id)
            } else {
                self.leases
            },
            opened: self.opened,
        }
    }

    /// The pool after a connection to the endpoint was opened.
    pub open spec fn after_opening(self, id: EndpointId) -> PoolState {
        PoolState {
            table: self.table,
            leases: self.leases.insert(self.opened as u64, id),
            opened: self.opened + 1,
        }
    }

    /// The pool after a connection to the endpoint could not be opened.
    pub open spec fn after_failure(self, id: EndpointId) -> PoolState {
        PoolState {
            table: self.table.insert(id, self.table[id].after_discard()),
            leases: self.leases,
            opened: self.opened,
        }
    }

    /// The pool after a connection came back to its endpoint at `now`.
    pub open spec fn after_return(self, id: EndpointId, number: u64, now: int) -> PoolState {
        PoolState {
            table: self.table.insert(id, self.table[id].after_return(number, now)),
            leases: self.leases.remove(number),
            opened: self.opened,
        }
    }

    /// The pool after a connection was given up.
    pub open spec fn after_discard(self, id: EndpointId, number: u64) -> PoolState {
        PoolState {
            table: self.table.insert(id, self.table[id].after_discard()),
            leases: self.leases.remove(number),
            opened: self.opened,
        }
    }

    /// The pool after the eviction at `deadline`.
    pub open spec fn after_evict(self, deadline: int) -> PoolState {
        PoolState {
            table: table_after_evict(self.table, deadline),
            leases: self.leases,
            opened: self.opened,
        }
    }

    /// In `after` as many connections to each endpoint are about to be opened as
    /// the event makes it.
    pub open spec fn opening_follows(self, event: Event, after: PoolState) -> bool {
        forall|id: EndpointId| #[trigger]
            after.opening(id) == self.opening(id) + event.opening_change(id)
    }

    /// The event can happen to the pool, and leads to `after`.
    pub open spec fn step(self, event: Event, after: PoolState) -> bool {
        match event {
            Event::Reused { id, number } => {
                &&& self.endpoint(id).available > 0
                &&& self.endpoint(id).idle.len() > 0
                &&& number == self.endpoint(id).idle.last().client
                &&& after == self.after_checkout(id)
            },
            Event::SlotTaken { id } => {
                &&& self.endpoint(id).available > 0
                &&& self.endpoint(id).idle.len() == 0
                &&& after == self.after_checkout(id)
            },
            Event::Opened { id, number } => {
                &&& self.opening(id) > 0
                &&& number == self.opened
                &&& after == self.after_opening(id)
            },
            Event::Failed { id } => {
                &&& self.opening(id) > 0
                &&& after == self.after_failure(id)
            },
            Event::Returned { id, number, now } => {
                &&& self.holds(id, number)
                &&& is_moment(now)
                &&& after == self.after_return(id, number, now)
            },
            Event::Discarded { id, number } => {
                &&& self.holds(id, number)
                &&& after == self.after_discard(id, number)
            },
            Event::Evicted { deadline } => after == self.after_evict(deadline),
        }
    }
}

/// A new lease is one more of its endpoint and of no other.
pub proof fn lemma_lease_added(leases: Map<u64, EndpointId>, number: u64, id: EndpointId)
    requires
        leases.dom().finite(),
        !leases.contains_key(number),
    ensures
        leases.insert(number, id).dom().finite(),
        leases_of(leases.insert(number, id), id).len() == leases_of(leases, id).len() + 1,
        forall|other: EndpointId|
            other != id ==> #[trigger] leases_of(leases.insert(number, id), other) == leases_of(
                leases,
                other,
            ),
{
    let after = leases.insert(number, id);
    vstd::set_lib::lemma_set_subset_finite(leases.dom(), leases_of(leases, id));
    assert(leases_of(after, id) =~= leases_of(leases, id).insert(number));
    assert forall|other: EndpointId| other != id implies #[trigger] leases_of(after, other)
        == leases_of(leases, other) by {
        assert(leases_of(after, other) =~= leases_of(leases, other));
    }
}

/// A lease that ends is one less of its endpoint and of no other.
pub proof fn lemma_lease_removed(leases: Map<u64, EndpointId>, number: u64, id: EndpointId)
    requires
        leases.dom().finite(),
        leases.contains_key(number),
        leases[number] == id,
    ensures
        leases.remove(number).dom().finite(),
        leases_of(leases, id).len() > 0,
        leases_of(leases.remove(number), id).len() == leases_of(leases, id).len() - 1,
        forall|other: EndpointId|
            other != id ==> #[trigger] leases_of(leases.remove(number), other) == leases_of(
                leases,
                other,
            ),
{
    let after = leases.remove(number);
    assert(after.insert(number, id) =~= leases);
    lemma_lease_added(after, number, id);
}

/// A connection that is checked out, or about to be opened, has a permit of an
/// endpoint that the pool holds.
pub proof fn lemma_permit_is_held(state: PoolState, id: EndpointId)
    requires
        state.wf(),
        state.opening(id) > 0 || exists|number: u64| #[trigger] state.holds(id, number),
    ensures
        state.table.contains_key(id),
        state.table[id].checked_out() > 0,
{
    assert(0 <= state.opening(id));
    if state.opening(id) <= 0 {
        let number = choose|number: u64| #[trigger] state.holds(id, number);
        lemma_lease_removed(state.leases, number, id);
    }
}

/// A pool without endpoints is well-formed.
pub proof fn lemma_empty_pool_is_wf()
    ensures
        PoolState::empty().wf(),
{
    let empty = PoolState::empty();
    assert forall|id: EndpointId| 0 <= #[trigger] empty.opening(id) by {
        assert(leases_of(empty.leases, id) =~= Set::empty());
    }
}

/// Every step of a pool changes the number of connections about to be opened by
/// what the step says, and keeps that of every other endpoint.
pub proof fn lemma_step_counts_openings(state: PoolState, event: Event, after: PoolState)
    requires
        state.wf(),
        state.step(event, after),
    ensures
        state.opening_follows(event, after),
{
    match event {
        Event::Reused { id, number } => {
            law_reused_connection_is_exclusive(state.table, id);
            lemma_lease_added(state.leases, number, id);
        },
        Event::SlotTaken { id } => {},
        Event::Opened { id, number } => {
            assert(!state.leases.contains_key(number));
            lemma_lease_added(state.leases, number, id);
        },
        Event::Failed { id } => {
            lemma_permit_is_held(state, id);
        },
        Event::Returned { id, number, now } => {
            lemma_permit_is_held(state, id);
            lemma_lease_removed(state.leases, number, id);
        },
        Event::Discarded { id, number } => {
            lemma_permit_is_held(state, id);
            lemma_lease_removed(state.leases, number, id);
        },
        Event::Evicted { deadline } => {
            assert forall|id: EndpointId| #[trigger]
                after.opening(id) == state.opening(id) by {
                law_eviction_spares_checked_out_connections(state.table, deadline, id);
            }
        },
    }
}

/// Every step of a pool keeps it well-formed.
pub proof fn lemma_step_keeps_wf(state: PoolState, event: Event, after: PoolState)
    requires
        state.wf(),
        state.step(event, after),
    ensures
        after.wf(),
        state.opening_follows(event, after),
{
    lemma_step_counts_openings(state, event, after);
    match event {
        Event::Reused { id, number } => {
            lemma_checkout_keeps_wf(state, id);
        },
        Event::SlotTaken { id } => {
            lemma_checkout_keeps_wf(state, id);
        },
        Event::Opened { id, number } => {
            lemma_opening_keeps_wf(state, id);
        },
        Event::Failed { id } => {
            lemma_permit_is_held(state, id);
            lemma_failure_keeps_wf(state, id);
        },
        Event::Returned { id, number, now } => {
            lemma_permit_is_held(state, id);
            lemma_return_keeps_wf(state, id, number, now);
        },
        Event::Discarded { id, number } => {
            lemma_permit_is_held(state, id);
            lemma_discard_keeps_wf(state, id, number);
        },
        Event::Evicted { deadline } => {
            lemma_eviction_keeps_wf(state, deadline);
        },
    }
}

proof fn lemma_checkout_keeps_wf(state: PoolState, id: EndpointId)
    requires
        state.wf(),
        state.endpoint(id).available > 0,
    ensures
        state.after_checkout(id).wf(),
{
    let after = state.after_checkout(id);
    let endpoint = state.endpoint(id);
    assert(0 <= state.opening(id));
    if endpoint.idle.len() > 0 {
        let number = endpoint.idle.last().client;
        law_reused_connection_is_exclusive(state.table, id);
        assert(!state.leases.contains_key(number));
        lemma_lease_added(state.leases, number, id);
    }
    assert forall|other: EndpointId| 0 <= #[trigger] after.opening(other) by {
        assert(0 <= state.opening(other));
    }
    assert forall|number: u64| is_idle(after.table, number) implies is_idle(
        state.table,
        number,
    ) by {
        law_checkout_and_discard_make_nothing_idle(state.table, id, number);
    }
    law_checkout_and_discard_make_nothing_idle(state.table, id, 0);
}

proof fn lemma_opening_keeps_wf(state: PoolState, id: EndpointId)
    requires
        state.wf(),
        state.opening(id) > 0,
        state.opened <= u64::MAX,
    ensures
        state.after_opening(id).wf(),
{
    let after = state.after_opening(id);
    let number = state.opened as u64;
    assert(!state.leases.contains_key(number));
    assert(!is_idle(state.table, number));
    lemma_lease_added(state.leases, number, id);
    assert forall|other: EndpointId| 0 <= #[trigger] after.opening(other) by {
        assert(0 <= state.opening(other));
    }
}

proof fn lemma_failure_keeps_wf(state: PoolState, id: EndpointId)
    requires
        state.wf(),
        state.opening(id) > 0,
        state.table.contains_key(id),
        state.table[id].checked_out() > 0,
    ensures
        state.after_failure(id).wf(),
{
    let after = state.after_failure(id);
    assert forall|other: EndpointId| 0 <= #[trigger] after.opening(other) by {
        assert(0 <= state.opening(other));
    }
    assert forall|number: u64| is_idle(after.table, number) implies is_idle(
        state.table,
        number,
    ) by {
        law_checkout_and_discard_make_nothing_idle(state.table, id, number);
    }
    law_checkout_and_discard_make_nothing_idle(state.table, id, 0);
}

proof fn lemma_return_keeps_wf(state: PoolState, id: EndpointId, number: u64, now: int)
    requires
        state.wf(),
        state.holds(id, number),
        is_moment(now),
        state.table.contains_key(id),
        state.table[id].checked_out() > 0,
    ensures
        state.after_return(id, number, now).wf(),
{
    let after = state.after_return(id, number, now);
    lemma_lease_removed(state.leases, number, id);
    assert forall|other: EndpointId| 0 <= #[trigger] after.opening(other) by {
        assert(0 <= state.opening(other));
    }
    assert forall|client: u64| is_idle(after.table, client) <==> is_idle(state.table, client)
        || client == number by {
        law_return_makes_one_connection_idle(state.table, id, number, now, client);
    }
    law_return_makes_one_connection_idle(state.table, id, number, now, number);
}

proof fn lemma_discard_keeps_wf(state: PoolState, id: EndpointId, number: u64)
    requires
        state.wf(),
        state.holds(id, number),
        state.table.contains_key(id),
        state.table[id].checked_out() > 0,
    ensures
        state.after_discard(id, number).wf(),
{
    let after = state.after_discard(id, number);
    lemma_lease_removed(state.leases, number, id);
    assert forall|other: EndpointId| 0 <= #[trigger] after.opening(other) by {
        assert(0 <= state.opening(other));
    }
    assert forall|client: u64| is_idle(after.table, client) implies is_idle(
        state.table,
        client,
    ) by {
        law_checkout_and_discard_make_nothing_idle(state.table, id, client);
    }
    law_checkout_and_discard_make_nothing_idle(state.table, id, 0);
}

proof fn lemma_eviction_keeps_wf(state: PoolState, deadline: int)
    requires
        state.wf(),
    ensures
        state.after_evict(deadline).wf(),
{
    let after = state.after_evict(deadline);
    lemma_evict_keeps_wf(state.table, deadline);
    assert forall|other: EndpointId| 0 <= #[trigger] after.opening(other) by {
        assert(0 <= state.opening(other));
        law_eviction_spares_checked_out_connections(state.table, deadline, other);
    }
    assert forall|client: u64| is_idle(after.table, client) implies is_idle(
        state.table,
        client,
    ) by {
        law_eviction_makes_nothing_idle(state.table, deadline, client);
    }
    law_eviction_makes_nothing_idle(state.table, deadline, 0);
}

} // verus!
