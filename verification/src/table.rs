//! The table of endpoints: a concurrent hash map behind an exclusive borrow.

use crate::config::{key_id, EndpointId, EndpointKey};
use crate::endpoint::{clients, Endpoint, EndpointState, IdleState};
use crate::time::{is_moment, Moment, Span};
use dashmap::DashMap;
use vstd::prelude::*;

verus! {

/// The hash map that holds the endpoints.
#[verifier::external_type_specification]
#[verifier::external_body]
#[verifier::reject_recursive_types(K)]
#[verifier::reject_recursive_types(V)]
#[verifier::reject_recursive_types(S)]
pub struct ExDashMap<K, V, S>(dashmap::DashMap<K, V, S>);

/// A table of endpoints as a mathematical value.
pub type EndpointTable = Map<EndpointId, EndpointState>;

/// The endpoints that a table holds, by what their keys stand for.
pub uninterp spec fn endpoints_held(table: DashMap<EndpointKey, Endpoint>) -> Map<
    EndpointId,
    EndpointState,
>;

/// `DashMap::new`: a table that holds nothing.
#[verifier::external_body]
pub(crate) fn new_table() -> (table: DashMap<EndpointKey, Endpoint>)
    ensures
        endpoints_held(table) == EndpointTable::empty(),
{
    DashMap::new()
}

/// `DashMap::remove`: takes the endpoint with this key out of the table, if the
/// table holds one, and returns it.
#[verifier::external_body]
pub(crate) fn take_endpoint(
    table: &mut DashMap<EndpointKey, Endpoint>,
    key: &EndpointKey,
) -> (taken: Option<Endpoint>)
    ensures
        taken is Some <==> endpoints_held(*old(table)).contains_key(key_id(*key)),
        taken matches Some(endpoint) ==> endpoint@ == endpoints_held(*old(table))[key_id(*key)],
        endpoints_held(*final(table)) == endpoints_held(*old(table)).remove(key_id(*key)),
{
    table.remove(key).map(|pair| pair.1)
}

/// `DashMap::insert`: puts an endpoint into the table under this key, in place of
/// the one that the table held there, if any.
#[verifier::external_body]
pub(crate) fn put_endpoint(
    table: &mut DashMap<EndpointKey, Endpoint>,
    key: EndpointKey,
    endpoint: Endpoint,
)
    ensures
        endpoints_held(*final(table)) == endpoints_held(*old(table)).insert(
            key_id(key),
            endpoint@,
        ),
{
    table.insert(key, endpoint);
}

/// `order` lists every endpoint of `table` once.
pub open spec fn lists_endpoints(
    order: Seq<EndpointId>,
    table: EndpointTable,
) -> bool {
    &&& order.no_duplicates()
    &&& forall|id: EndpointId| #[trigger] order.contains(id) <==> table.contains_key(id)
}

/// The table after the eviction at `deadline`: connections that expire are gone
/// from every endpoint, and so is every endpoint that has no connection left.
pub open spec fn table_after_evict(
    table: EndpointTable,
    deadline: int,
) -> EndpointTable {
    Map::new(
        |id: EndpointId| table.contains_key(id) && table[id].kept(deadline),
        |id: EndpointId| table[id].after_evict(deadline),
    )
}

/// The numbers of the connections that expire at `deadline`, endpoint by endpoint
/// as in `order`.
pub open spec fn expired_clients(
    table: EndpointTable,
    order: Seq<EndpointId>,
    deadline: int,
) -> Seq<u64>
    decreases order.len(),
{
    if order.len() == 0 {
        Seq::empty()
    } else {
        expired_clients(table, order.drop_last(), deadline) + clients(
            table[order.last()].expired(deadline),
        )
    }
}

/// The eviction at `deadline` leads from `before` to `after`, and `dropped` are the
/// numbers of the connections that expire.
pub open spec fn evicts(
    before: EndpointTable,
    after: EndpointTable,
    dropped: Seq<u64>,
    deadline: int,
) -> bool {
    &&& after == table_after_evict(before, deadline)
    &&& exists|order: Seq<EndpointId>|
        lists_endpoints(order, before) && dropped == #[trigger] expired_clients(
            before,
            order,
            deadline,
        )
}

/// `DashMap::retain`, with [`Endpoint::evict`] deciding on every endpoint once, in
/// no particular order: the table keeps the endpoints on which it returned true,
/// as it left them.
#[verifier::external_body]
pub(crate) fn retain_endpoints(
    table: &mut DashMap<EndpointKey, Endpoint>,
    now: Moment,
    timeout: Span,
    dropped: &mut Vec<u64>,
)
    ensures
        endpoints_held(*final(table)) == table_after_evict(
            endpoints_held(*old(table)),
            now@ - timeout@,
        ),
        exists|order: Seq<EndpointId>|
            lists_endpoints(order, endpoints_held(*old(table))) && final(dropped)@ == old(
                dropped,
            )@ + #[trigger] expired_clients(
                endpoints_held(*old(table)),
                order,
                now@ - timeout@,
            ),
{
    table.retain(|_, endpoint| endpoint.evict(now, timeout, dropped));
}

/// `lens` are the numbers of idle connections of the endpoints of `table`, one
/// for each, in the given order.
pub open spec fn are_idle_lens(
    lens: Seq<usize>,
    order: Seq<EndpointId>,
    table: EndpointTable,
) -> bool {
    &&& lists_endpoints(order, table)
    &&& lens.len() == order.len()
    &&& forall|at: int| 0 <= at < lens.len() ==> #[trigger] lens[at] == table[order[at]].idle.len()
}

/// `DashMap::iter`, with [`Endpoint::idle_len`] read from every endpoint: how many
/// idle connections each endpoint has, in no particular order. Nothing changes the
/// table meanwhile, since every function here that does borrows it exclusively.
#[verifier::external_body]
pub(crate) fn idle_lens(table: &DashMap<EndpointKey, Endpoint>) -> (lens: Vec<usize>)
    ensures
        exists|order: Seq<EndpointId>| are_idle_lens(lens@, order, endpoints_held(*table)),
{
    table.iter().map(|entry| entry.value().idle_len()).collect()
}

/// The number of idle connections over all endpoints.
pub open spec fn total_idle(table: EndpointTable) -> nat
    decreases table.dom().len(),
{
    if table.dom().finite() && table.dom().len() > 0 {
        let id = table.dom().choose();
        table[id].idle.len() + total_idle(table.remove(id))
    } else {
        0
    }
}

/// Any endpoint may be counted first.
pub proof fn lemma_total_idle_remove(table: EndpointTable, id: EndpointId)
    requires
        table.dom().finite(),
        table.contains_key(id),
    ensures
        total_idle(table) == table[id].idle.len() + total_idle(table.remove(id)),
    decreases table.dom().len(),
{
    let first = table.dom().choose();
    if first != id {
        lemma_total_idle_remove(table.remove(first), id);
        lemma_total_idle_remove(table.remove(id), first);
        assert(table.remove(first).remove(id) =~= table.remove(id).remove(first));
    }
}

/// Putting an endpoint into the table changes the count by that endpoint alone.
pub proof fn lemma_total_idle_insert(table: EndpointTable, id: EndpointId, state: EndpointState)
    requires
        table.dom().finite(),
    ensures
        total_idle(table.insert(id, state)) == total_idle(table.remove(id)) + state.idle.len(),
        table.contains_key(id) ==> total_idle(table.insert(id, state)) == total_idle(table)
            - table[id].idle.len() + state.idle.len(),
        !table.contains_key(id) ==> total_idle(table.insert(id, state)) == total_idle(table)
            + state.idle.len(),
{
    lemma_total_idle_remove(table.insert(id, state), id);
    assert(table.insert(id, state).remove(id) =~= table.remove(id));
    if table.contains_key(id) {
        lemma_total_idle_remove(table, id);
    } else {
        assert(table.remove(id) =~= table);
    }
}

/// The sum of `lens`.
pub open spec fn sum(lens: Seq<usize>) -> nat
    decreases lens.len(),
{
    if lens.len() == 0 {
        0
    } else {
        sum(lens.drop_last()) + lens.last() as nat
    }
}

/// Without its last endpoint, a list of all endpoints lists the others.
pub proof fn lemma_lists_the_rest(order: Seq<EndpointId>, table: EndpointTable)
    requires
        lists_endpoints(order, table),
        order.len() > 0,
    ensures
        table.contains_key(order.last()),
        lists_endpoints(order.drop_last(), table.remove(order.last())),
{
    let last = order.last();
    let rest = order.drop_last();
    assert(order.contains(last));
    assert forall|id: EndpointId| #[trigger]
        rest.contains(id) <==> table.remove(last).contains_key(id) by {
        if rest.contains(id) {
            let at = choose|at: int| 0 <= at < rest.len() && rest[at] == id;
            assert(order[at] == id);
            assert(order.contains(id));
        }
        if table.remove(last).contains_key(id) {
            assert(order.contains(id));
            let at = choose|at: int| 0 <= at < order.len() && order[at] == id;
            assert(rest[at] == id);
        }
    }
}

/// The numbers of idle connections of all endpoints add up to the total.
pub proof fn lemma_idle_lens_add_up(
    lens: Seq<usize>,
    order: Seq<EndpointId>,
    table: EndpointTable,
)
    requires
        table.dom().finite(),
        are_idle_lens(lens, order, table),
    ensures
        sum(lens) == total_idle(table),
    decreases lens.len(),
{
    if lens.len() == 0 {
        assert forall|id: EndpointId| !table.contains_key(id) by {
            assert(!order.contains(id));
        }
        assert(table.dom() =~= Set::empty());
    } else {
        let last = order.last();
        let rest = order.drop_last();
        lemma_lists_the_rest(order, table);
        assert(are_idle_lens(lens.drop_last(), rest, table.remove(last))) by {
            assert forall|at: int| 0 <= at < lens.drop_last().len() implies #[trigger]
                lens.drop_last()[at] == table.remove(last)[rest[at]].idle.len() by {
                assert(lens[at] == table[order[at]].idle.len());
            }
        }
        assert(lens.last() == table[last].idle.len());
        lemma_idle_lens_add_up(lens.drop_last(), rest, table.remove(last));
        lemma_total_idle_remove(table, last);
    }
}

/// A partial sum is not greater than the whole.
pub proof fn lemma_partial_sum(lens: Seq<usize>, count: int)
    requires
        0 <= count <= lens.len(),
    ensures
        sum(lens.take(count)) <= sum(lens),
    decreases lens.len(),
{
    if count == lens.len() {
        assert(lens.take(count) =~= lens);
    } else {
        lemma_partial_sum(lens.drop_last(), count);
        assert(lens.drop_last().take(count) =~= lens.take(count));
    }
}

/// The number of idle connections over all endpoints, unless it is more than a
/// `usize` can count.
pub(crate) fn count_idle(table: &DashMap<EndpointKey, Endpoint>) -> (count: Option<usize>)
    requires
        endpoints_held(*table).dom().finite(),
    ensures
        count is Some <==> total_idle(endpoints_held(*table)) <= usize::MAX,
        count matches Some(total) ==> total == total_idle(endpoints_held(*table)),
{
    let lens = idle_lens(table);
    proof {
        let order = choose|order: Seq<EndpointId>|
            are_idle_lens(lens@, order, endpoints_held(*table));
        lemma_idle_lens_add_up(lens@, order, endpoints_held(*table));
    }
    let mut total: usize = 0;
    let mut at: usize = 0;
    while at < lens.len()
        invariant
            at <= lens.len(),
            total == sum(lens@.take(at as int)),
            sum(lens@) == total_idle(endpoints_held(*table)),
        decreases lens.len() - at,
    {
        proof {
            assert(lens@.take(at + 1).drop_last() =~= lens@.take(at as int));
            lemma_partial_sum(lens@, at + 1);
        }
        match total.checked_add(lens[at]) {
            Some(more) => total = more,
            None => return None,
        }
        at = at + 1;
    }
    proof {
        assert(lens@.take(at as int) =~= lens@);
    }
    Some(total)
}

/// Every endpoint of the table is well-formed, and there are finitely many.
pub open spec fn table_wf(table: EndpointTable) -> bool {
    &&& table.dom().finite()
    &&& forall|id: EndpointId| #[trigger] table.contains_key(id) ==> table[id].wf()
}

/// The endpoint of this name: what the table holds, or else one without connections.
pub open spec fn endpoint_in(table: EndpointTable, id: EndpointId) -> EndpointState {
    if table.contains_key(id) {
        table[id]
    } else {
        EndpointState::fresh()
    }
}

/// An eviction keeps the table well-formed.
pub proof fn lemma_evict_keeps_wf(table: EndpointTable, deadline: int)
    requires
        table_wf(table),
    ensures
        table_wf(table_after_evict(table, deadline)),
{
    let after = table_after_evict(table, deadline);
    assert(after.dom().subset_of(table.dom()));
    vstd::set_lib::lemma_set_subset_finite(table.dom(), after.dom());
    assert forall|id: EndpointId| #[trigger] after.contains_key(id) implies after[id].wf() by {
        assert(table.contains_key(id));
        let fresh = |entry: IdleState| entry.since >= deadline;
        let idle = table[id].idle;
        idle.lemma_filter_len(fresh);
        assert forall|at: int| 0 <= at < after[id].idle.len() implies is_moment(
            (#[trigger] after[id].idle[at]).since,
        ) by {
            assert(idle.filter(fresh).contains(after[id].idle[at]));
            idle.lemma_filter_contains_rev(fresh, after[id].idle[at]);
        }
    }
}

/// The pool has an idle connection at this place.
pub open spec fn idle_at(table: EndpointTable, id: EndpointId, at: int) -> bool {
    table.contains_key(id) && 0 <= at < table[id].idle.len()
}

/// The connection of this number is idle.
pub open spec fn is_idle(table: EndpointTable, client: u64) -> bool {
    exists|id: EndpointId, at: int| #[trigger]
        idle_at(table, id, at) && table[id].idle[at].client == client
}

/// No connection is idle twice.
pub open spec fn idle_once(table: EndpointTable) -> bool {
    forall|id1: EndpointId, at1: int, id2: EndpointId, at2: int|
        #![trigger idle_at(table, id1, at1), idle_at(table, id2, at2)]
        idle_at(table, id1, at1) && idle_at(table, id2, at2) && table[id1].idle[at1].client
            == table[id2].idle[at2].client ==> id1 == id2 && at1 == at2
}

} // verus!
