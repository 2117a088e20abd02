//! What holds of the pool as a whole: laws that tie its operations together.

use crate::config::{
    endpoint_id, key_id, ConnectRequest, EndpointId, EndpointKey, GrpcClientConfig,
};
use crate::endpoint::{clients, EndpointState, IdleState, MAX_CONNECTIONS_PER_ENDPOINT};
use crate::pool::{check_interval_nanos, DefaultBallistaClientPool, MIN_CHECK_INTERVAL_SECS};
use crate::state::{
    lemma_empty_pool_is_wf, lemma_permit_is_held, lemma_step_keeps_wf, leases_of, Event, PoolState,
};
use crate::table::{
    endpoint_in, evicts, expired_clients, idle_at, idle_once, is_idle, lemma_evict_keeps_wf,
    lemma_lists_the_rest, lemma_total_idle_insert, lemma_total_idle_remove, lists_endpoints,
    table_after_evict, table_wf, total_idle, EndpointTable,
};
use crate::time::{is_moment, shown, MAX_MOMENT_NANOS, MAX_SPAN_NANOS, NANOS_PER_SEC};
use vstd::prelude::*;

verus! {

/// An endpoint never has more connections than the maximum: neither checked out,
/// nor idle and checked out together.
pub proof fn law_connections_are_bounded(table: EndpointTable, id: EndpointId)
    requires
        table_wf(table),
    ensures
        0 <= endpoint_in(table, id).checked_out() <= MAX_CONNECTIONS_PER_ENDPOINT,
        endpoint_in(table, id).idle.len() + endpoint_in(table, id).checked_out()
            <= MAX_CONNECTIONS_PER_ENDPOINT,
{
}

/// Nobody waits while a connection is idle: an idle connection is always handed
/// out, and one waits only while the maximum is checked out.
pub proof fn law_idle_connections_are_reused(table: EndpointTable, id: EndpointId)
    requires
        table_wf(table),
    ensures
        endpoint_in(table, id).idle.len() > 0 ==> endpoint_in(table, id).available > 0,
        endpoint_in(table, id).available == 0 <==> endpoint_in(table, id).checked_out()
            == MAX_CONNECTIONS_PER_ENDPOINT,
{
}

/// What is done with one endpoint leaves every other endpoint as it was.
pub proof fn law_other_endpoints_are_untouched(
    table: EndpointTable,
    id: EndpointId,
    state: EndpointState,
    other: EndpointId,
)
    requires
        other != id,
    ensures
        endpoint_in(table.insert(id, state), other) == endpoint_in(table, other),
{
}

/// A connection that is returned is the next one that its endpoint hands out,
/// and handing it out undoes the return.
pub proof fn law_returned_connection_comes_next(
    table: EndpointTable,
    id: EndpointId,
    client: u64,
    now: int,
)
    requires
        table_wf(table),
        endpoint_in(table, id).checked_out() > 0,
    ensures
        ({
            let returned = table.insert(id, table[id].after_return(client, now));
            let endpoint = endpoint_in(returned, id);
            &&& endpoint.available > 0
            &&& endpoint.idle.len() > 0
            &&& endpoint.idle.last().client == client
            &&& returned.insert(id, endpoint.after_checkout()) == table
        }),
{
    let returned = table.insert(id, table[id].after_return(client, now));
    assert(returned[id].after_checkout() =~= table[id]);
    assert(returned.insert(id, returned[id].after_checkout()) =~= table);
}

/// Whoever waits for a connection gets one once a connection to the endpoint is
/// returned or given up, or could not be opened.
pub proof fn law_waiting_ends(state: EndpointState, client: u64, now: int)
    requires
        state.wf(),
        state.available == 0,
    ensures
        state.after_return(client, now).available > 0,
        state.after_discard().available > 0,
{
}

/// Reusing a connection and returning it changes nothing but the time since when
/// it is idle.
pub proof fn law_reuse_and_return(state: EndpointState, now: int)
    requires
        state.idle.len() > 0,
    ensures
        ({
            let last = state.idle.len() - 1;
            let client = state.idle[last].client;
            state.after_checkout().after_return(client, now) == EndpointState {
                idle: state.idle.update(last, IdleState { client, since: now }),
                available: state.available,
            }
        }),
{
    let last = state.idle.len() - 1;
    let client = state.idle[last].client;
    assert(state.after_checkout().after_return(client, now).idle =~= state.idle.update(
        last,
        IdleState { client, since: now },
    ));
}

/// A connection that could not be opened leaves its endpoint as it was.
pub proof fn law_failed_opening_leaves_no_trace(table: EndpointTable, id: EndpointId)
    requires
        endpoint_in(table, id).idle.len() == 0,
    ensures
        ({
            let opening = table.insert(id, endpoint_in(table, id).after_checkout());
            let failed = opening.insert(id, opening[id].after_discard());
            &&& failed == table.insert(id, endpoint_in(table, id))
            &&& table.contains_key(id) ==> failed == table
        }),
{
    let opening = table.insert(id, endpoint_in(table, id).after_checkout());
    let failed = opening.insert(id, opening[id].after_discard());
    assert(opening[id].after_discard() =~= endpoint_in(table, id));
    assert(failed =~= table.insert(id, endpoint_in(table, id)));
    if table.contains_key(id) {
        assert(failed =~= table);
    }
}

/// Giving up a reused connection takes it out of the pool for good: the other
/// idle connections and the permits are as they were before it was handed out.
pub proof fn law_discarded_connection_is_gone(state: EndpointState)
    requires
        state.idle.len() > 0,
    ensures
        state.after_checkout().after_discard() == (EndpointState {
            idle: state.idle.drop_last(),
            available: state.available,
        }),
{
}

/// An eviction drops exactly the idle connections that were returned before the
/// deadline.
pub proof fn law_eviction_drops_the_expired(
    table: EndpointTable,
    deadline: int,
    id: EndpointId,
    entry: IdleState,
)
    ensures
        endpoint_in(table_after_evict(table, deadline), id).idle.contains(entry) <==> endpoint_in(
            table,
            id,
        ).idle.contains(entry) && entry.since >= deadline,
{
    let state = endpoint_in(table, id);
    let fresh = |entry: IdleState| entry.since >= deadline;
    let survivors = state.survivors(deadline);
    if survivors.contains(entry) {
        let at = choose|at: int| 0 <= at < survivors.len() && survivors[at] == entry;
        state.idle.lemma_filter_pred(fresh, at);
        state.idle.lemma_filter_contains_rev(fresh, entry);
    }
    if state.idle.contains(entry) && entry.since >= deadline {
        let at = choose|at: int| 0 <= at < state.idle.len() && state.idle[at] == entry;
        state.idle.lemma_filter_contains(fresh, at);
        assert(survivors.contains(entry));
    }
    if !table.contains_key(id) {
        assert(!state.idle.contains(entry));
    }
}

/// At `now`, an eviction drops exactly the connections that have been idle for
/// longer than the timeout.
pub proof fn law_eviction_follows_the_timeout(
    table: EndpointTable,
    now: int,
    timeout: int,
    id: EndpointId,
    entry: IdleState,
)
    ensures
        endpoint_in(table_after_evict(table, now - timeout), id).idle.contains(entry) <==> endpoint_in(table, id).idle.contains(entry) && now - entry.since
            <= timeout,
{
    law_eviction_drops_the_expired(table, now - timeout, id, entry);
}

/// After an eviction the pool holds exactly the endpoints that have a connection
/// left, be it idle or checked out.
pub proof fn law_eviction_drops_unused_endpoints(
    table: EndpointTable,
    deadline: int,
    id: EndpointId,
)
    ensures
        table_after_evict(table, deadline).contains_key(id) <==> table.contains_key(id) && (
        table[id].checked_out() > 0 || exists|entry: IdleState|
            table[id].idle.contains(entry) && #[trigger] entry.since >= deadline),
{
    let state = table[id];
    let fresh = |entry: IdleState| entry.since >= deadline;
    let survivors = state.survivors(deadline);
    if survivors.len() > 0 {
        let entry = survivors[0];
        assert(survivors.contains(entry));
        state.idle.lemma_filter_pred(fresh, 0);
        state.idle.lemma_filter_contains_rev(fresh, entry);
        assert(state.idle.contains(entry) && entry.since >= deadline);
    }
    if exists|entry: IdleState|
        state.idle.contains(entry) && #[trigger] entry.since >= deadline {
        let entry = choose|entry: IdleState|
            state.idle.contains(entry) && #[trigger] entry.since >= deadline;
        let at = choose|at: int| 0 <= at < state.idle.len() && state.idle[at] == entry;
        state.idle.lemma_filter_contains(fresh, at);
    }
}

/// An eviction leaves checked-out connections alone: as many are checked out of
/// every endpoint as before, so each can still be returned.
pub proof fn law_eviction_spares_checked_out_connections(
    table: EndpointTable,
    deadline: int,
    id: EndpointId,
)
    requires
        table_wf(table),
    ensures
        endpoint_in(table_after_evict(table, deadline), id).checked_out() == endpoint_in(
            table,
            id,
        ).checked_out(),
{
}

/// Evicting at an earlier deadline first makes no difference.
pub proof fn law_later_eviction_subsumes_earlier(
    table: EndpointTable,
    earlier: int,
    later: int,
)
    requires
        earlier <= later,
    ensures
        table_after_evict(table_after_evict(table, earlier), later) == table_after_evict(
            table,
            later,
        ),
{
    let once = table_after_evict(table, earlier);
    assert forall|id: EndpointId| table.contains_key(id) implies #[trigger] table[id].survivors(
        later,
    ) == table[id].after_evict(earlier).survivors(later) by {
        lemma_filter_twice(table[id].idle, earlier, later);
    }
    assert forall|id: EndpointId|
        table.contains_key(id) && #[trigger] table[id].survivors(later).len() > 0 implies table[
        id
    ].survivors(earlier).len() > 0 by {
        let once_left = table[id].after_evict(earlier);
        once_left.idle.lemma_filter_len(|entry: IdleState| entry.since >= later);
        assert(table[id].survivors(later) == once_left.survivors(later));
    }
    assert(table_after_evict(once, later) =~= table_after_evict(table, later));
}

/// Evicting twice at one deadline is the same as evicting once.
pub proof fn law_eviction_is_idempotent(table: EndpointTable, deadline: int)
    ensures
        table_after_evict(table_after_evict(table, deadline), deadline) == table_after_evict(
            table,
            deadline,
        ),
{
    law_later_eviction_subsumes_earlier(table, deadline, deadline);
}

proof fn lemma_filter_twice(idle: Seq<IdleState>, earlier: int, later: int)
    requires
        earlier <= later,
    ensures
        idle.filter(|entry: IdleState| entry.since >= earlier).filter(
            |entry: IdleState| entry.since >= later,
        ) == idle.filter(|entry: IdleState| entry.since >= later),
    decreases idle.len(),
{
    let first = |entry: IdleState| entry.since >= earlier;
    let second = |entry: IdleState| entry.since >= later;
    if idle.len() == 0 {
        assert(idle.filter(first) =~= idle);
    } else {
        let rest = idle.drop_last();
        let last = idle.last();
        lemma_filter_twice(rest, earlier, later);
        assert(idle =~= rest.push(last));
        rest.lemma_filter_push(last, first);
        rest.lemma_filter_push(last, second);
        rest.filter(first).lemma_filter_push(last, second);
    }
}

/// Under the greatest timeout no eviction drops a connection, whatever the moment.
pub proof fn law_greatest_timeout_evicts_nothing(
    before: EndpointTable,
    after: EndpointTable,
    dropped: Seq<u64>,
    now: int,
    timeout: int,
    id: EndpointId,
)
    requires
        table_wf(before),
        is_moment(now),
        timeout >= MAX_SPAN_NANOS,
        evicts(before, after, dropped, now - timeout),
    ensures
        dropped.len() == 0,
        endpoint_in(after, id).idle == endpoint_in(before, id).idle,
        total_idle(after) == total_idle(before),
{
    let deadline = now - timeout;
    let idle = endpoint_in(before, id).idle;
    lemma_all_survive(idle, deadline);
    if before.contains_key(id) && !after.contains_key(id) {
        assert(idle =~= EndpointState::fresh().idle);
    }
    if dropped.len() > 0 {
        law_eviction_reports_the_expired(before, after, dropped, deadline, dropped[0]);
        assert(dropped.contains(dropped[0]));
    }
    law_eviction_accounts_for_every_connection(before, after, dropped, deadline);
}

proof fn lemma_all_survive(idle: Seq<IdleState>, deadline: int)
    requires
        forall|at: int| 0 <= at < idle.len() ==> (#[trigger] idle[at]).since >= deadline,
    ensures
        idle.filter(|entry: IdleState| entry.since >= deadline) == idle,
    decreases idle.len(),
{
    let fresh = |entry: IdleState| entry.since >= deadline;
    if idle.len() == 0 {
        assert(idle.filter(fresh) =~= idle);
    } else {
        let rest = idle.drop_last();
        let last = idle.last();
        assert forall|at: int| 0 <= at < rest.len() implies (#[trigger] rest[at]).since
            >= deadline by {
            assert(rest[at] == idle[at]);
        }
        lemma_all_survive(rest, deadline);
        assert(idle =~= rest.push(last));
        rest.lemma_filter_push(last, fresh);
    }
}

/// Two evictions of one pool in a row, the second no earlier than the first, do
/// what the second alone would have done; at one moment the second does nothing.
pub proof fn law_only_the_last_eviction_counts(
    table: EndpointTable,
    timeout: int,
    first: int,
    second: int,
)
    requires
        first <= second,
    ensures
        table_after_evict(table_after_evict(table, first - timeout), second - timeout)
            == table_after_evict(table, second - timeout),
        first == second ==> table_after_evict(
            table_after_evict(table, first - timeout),
            second - timeout,
        ) == table_after_evict(table, first - timeout),
{
    law_later_eviction_subsumes_earlier(table, first - timeout, second - timeout);
}

/// The background task's ticks are at least the minimum apart. For timeouts below
/// three minima they are the minimum apart and no more; for longer ones, three
/// intervals are the timeout, but for at most two nanoseconds.
pub proof fn law_check_interval(timeout: int)
    requires
        0 <= timeout,
    ensures
        check_interval_nanos(timeout) >= MIN_CHECK_INTERVAL_SECS * NANOS_PER_SEC,
        timeout < 3 * MIN_CHECK_INTERVAL_SECS * NANOS_PER_SEC ==> check_interval_nanos(timeout)
            == MIN_CHECK_INTERVAL_SECS * NANOS_PER_SEC,
        timeout >= 3 * MIN_CHECK_INTERVAL_SECS * NANOS_PER_SEC ==> 0 <= timeout - 3
            * check_interval_nanos(timeout) <= 2,
{
}

/// A connection is handed out to one user only: once it is reused it is not idle,
/// and only an idle connection is reused.
pub proof fn law_reused_connection_is_exclusive(table: EndpointTable, id: EndpointId)
    requires
        idle_once(table),
        endpoint_in(table, id).idle.len() > 0,
    ensures
        ({
            let endpoint = endpoint_in(table, id);
            let reused = table.insert(id, endpoint.after_checkout());
            &&& is_idle(table, endpoint.idle.last().client)
            &&& !is_idle(reused, endpoint.idle.last().client)
            &&& idle_once(reused)
        }),
{
    let endpoint = endpoint_in(table, id);
    let reused = table.insert(id, endpoint.after_checkout());
    let last = endpoint.idle.len() - 1;
    assert(idle_at(table, id, last));
    assert forall|other: EndpointId, at: int| #[trigger] idle_at(reused, other, at) implies idle_at(
        table,
        other,
        at,
    ) && reused[other].idle[at] == table[other].idle[at] && (other != id || at != last) by {
    }
}

/// Handing out a connection, or freeing a permit, makes no connection idle.
pub proof fn law_checkout_and_discard_make_nothing_idle(
    table: EndpointTable,
    id: EndpointId,
    client: u64,
)
    ensures
        ({
            let handed_out = table.insert(id, endpoint_in(table, id).after_checkout());
            &&& is_idle(handed_out, client) ==> is_idle(table, client)
            &&& idle_once(table) ==> idle_once(handed_out)
        }),
        ({
            let freed = table.insert(id, endpoint_in(table, id).after_discard());
            &&& is_idle(freed, client) <==> is_idle(table, client)
            &&& idle_once(table) ==> idle_once(freed)
        }),
{
    let handed_out = table.insert(id, endpoint_in(table, id).after_checkout());
    assert forall|other: EndpointId, at: int| #[trigger]
        idle_at(handed_out, other, at) implies idle_at(table, other, at)
        && handed_out[other].idle[at] == table[other].idle[at] by {
    }
    let freed = table.insert(id, endpoint_in(table, id).after_discard());
    assert forall|other: EndpointId, at: int| #[trigger] idle_at(freed, other, at) implies idle_at(
        table,
        other,
        at,
    ) && freed[other].idle[at] == table[other].idle[at] by {
    }
    assert forall|other: EndpointId, at: int| #[trigger] idle_at(table, other, at) implies idle_at(
        freed,
        other,
        at,
    ) && freed[other].idle[at] == table[other].idle[at] by {
    }
}

/// Returning a connection makes that one idle and no other. As long as only
/// connections that are not idle are returned, none is ever idle twice.
pub proof fn law_return_makes_one_connection_idle(
    table: EndpointTable,
    id: EndpointId,
    returned: u64,
    now: int,
    client: u64,
)
    requires
        table.contains_key(id),
    ensures
        ({
            let after = table.insert(id, table[id].after_return(returned, now));
            &&& is_idle(after, client) <==> is_idle(table, client) || client == returned
            &&& idle_once(table) && !is_idle(table, returned) ==> idle_once(after)
        }),
{
    let after = table.insert(id, table[id].after_return(returned, now));
    let end = table[id].idle.len() as int;
    assert(idle_at(after, id, end));
    assert(after[id].idle[end].client == returned);
    assert forall|other: EndpointId, at: int| #[trigger]
        idle_at(after, other, at) && (other != id || at != end) implies idle_at(table, other, at)
        && after[other].idle[at] == table[other].idle[at] by {
    }
    assert forall|other: EndpointId, at: int| #[trigger] idle_at(table, other, at) implies idle_at(
        after,
        other,
        at,
    ) && after[other].idle[at] == table[other].idle[at] by {
    }
}

/// An eviction makes no connection idle, and none idle twice.
pub proof fn law_eviction_makes_nothing_idle(table: EndpointTable, deadline: int, client: u64)
    ensures
        is_idle(table_after_evict(table, deadline), client) ==> is_idle(table, client),
        idle_once(table) ==> idle_once(table_after_evict(table, deadline)),
{
    let after = table_after_evict(table, deadline);
    if is_idle(after, client) {
        let (id, at) = choose|id: EndpointId, at: int| #[trigger]
            idle_at(after, id, at) && after[id].idle[at].client == client;
        let from = lemma_survivor_position(table[id].idle, deadline, at);
        assert(idle_at(table, id, from));
    }
    if idle_once(table) {
        assert forall|id1: EndpointId, at1: int, id2: EndpointId, at2: int|
            #![trigger idle_at(after, id1, at1), idle_at(after, id2, at2)]
            idle_at(after, id1, at1) && idle_at(after, id2, at2) && after[id1].idle[at1].client
                == after[id2].idle[at2].client implies id1 == id2 && at1 == at2 by {
            let from1 = lemma_survivor_position(table[id1].idle, deadline, at1);
            let from2 = lemma_survivor_position(table[id2].idle, deadline, at2);
            assert(idle_at(table, id1, from1) && idle_at(table, id2, from2));
            assert(at1 == survivors_before(table[id1].idle, deadline, from1));
            assert(at2 == survivors_before(table[id2].idle, deadline, from2));
        }
    }
}

/// How many of the first `count` entries survive the eviction at `deadline`.
spec fn survivors_before(idle: Seq<IdleState>, deadline: int, count: int) -> int {
    idle.take(count).filter(|entry: IdleState| entry.since >= deadline).len() as int
}

/// Where a survivor was before the eviction.
proof fn lemma_survivor_position(idle: Seq<IdleState>, deadline: int, at: int) -> (from: int)
    requires
        0 <= at < idle.filter(|entry: IdleState| entry.since >= deadline).len(),
    ensures
        0 <= from < idle.len(),
        idle[from] == idle.filter(|entry: IdleState| entry.since >= deadline)[at],
        at == survivors_before(idle, deadline, from),
    decreases idle.len(),
{
    let fresh = |entry: IdleState| entry.since >= deadline;
    let rest = idle.drop_last();
    let last = idle.last();
    assert(idle.len() > 0) by {
        idle.lemma_filter_len(fresh);
    }
    assert(idle =~= rest.push(last));
    rest.lemma_filter_push(last, fresh);
    if at < rest.filter(fresh).len() {
        let from = lemma_survivor_position(rest, deadline, at);
        assert(rest.take(from) =~= idle.take(from));
        from
    } else {
        assert(idle.take(idle.len() - 1) =~= rest);
        idle.len() - 1
    }
}

/// Returning a connection adds one to the idle connections of the pool.
pub proof fn law_return_counts_one_more(
    table: EndpointTable,
    id: EndpointId,
    client: u64,
    now: int,
)
    requires
        table_wf(table),
        table.contains_key(id),
    ensures
        total_idle(table.insert(id, table[id].after_return(client, now))) == total_idle(table) + 1,
{
    lemma_total_idle_insert(table, id, table[id].after_return(client, now));
}

/// Handing out a connection takes one from the idle connections of the pool if
/// the endpoint has one, and leaves their number as it is if not.
pub proof fn law_checkout_counts_one_less(table: EndpointTable, id: EndpointId)
    requires
        table_wf(table),
    ensures
        total_idle(table.insert(id, endpoint_in(table, id).after_checkout())) == total_idle(table)
            - if endpoint_in(table, id).idle.len() > 0 {
            1int
        } else {
            0
        },
{
    lemma_total_idle_insert(table, id, endpoint_in(table, id).after_checkout());
}

/// Giving a connection up leaves the number of idle connections as it is.
pub proof fn law_discard_counts_the_same(table: EndpointTable, id: EndpointId)
    requires
        table_wf(table),
        table.contains_key(id),
    ensures
        total_idle(table.insert(id, table[id].after_discard())) == total_idle(table),
{
    lemma_total_idle_insert(table, id, table[id].after_discard());
}

/// An eviction loses no connection: what it drops and what stays idle add up to
/// what was idle.
pub proof fn law_eviction_accounts_for_every_connection(
    before: EndpointTable,
    after: EndpointTable,
    dropped: Seq<u64>,
    deadline: int,
)
    requires
        table_wf(before),
        evicts(before, after, dropped, deadline),
    ensures
        total_idle(before) == total_idle(after) + dropped.len(),
{
    let order = choose|order: Seq<EndpointId>|
        lists_endpoints(order, before) && dropped == #[trigger] expired_clients(
            before,
            order,
            deadline,
        );
    lemma_eviction_count(before, order, deadline);
}

proof fn lemma_eviction_count(table: EndpointTable, order: Seq<EndpointId>, deadline: int)
    requires
        table_wf(table),
        lists_endpoints(order, table),
    ensures
        total_idle(table) == total_idle(table_after_evict(table, deadline)) + expired_clients(
            table,
            order,
            deadline,
        ).len(),
    decreases order.len(),
{
    let after = table_after_evict(table, deadline);
    lemma_evict_keeps_wf(table, deadline);
    if order.len() == 0 {
        assert forall|id: EndpointId| !table.contains_key(id) by {
            assert(!order.contains(id));
        }
        assert(table.dom() =~= Set::empty());
        assert(after.dom() =~= Set::empty());
    } else {
        let id = order.last();
        let rest = order.drop_last();
        let others = table.remove(id);
        lemma_lists_the_rest(order, table);
        lemma_eviction_count(others, rest, deadline);
        lemma_expired_clients_elsewhere(table, others, rest, deadline);
        lemma_total_idle_remove(table, id);
        lemma_survivors_and_expired(table[id].idle, deadline);
        assert(after.remove(id) =~= table_after_evict(others, deadline));
        if after.contains_key(id) {
            lemma_total_idle_remove(after, id);
        } else {
            assert(after =~= after.remove(id));
        }
    }
}

proof fn lemma_expired_clients_elsewhere(
    table: EndpointTable,
    others: EndpointTable,
    order: Seq<EndpointId>,
    deadline: int,
)
    requires
        forall|at: int| 0 <= at < order.len() ==> table[#[trigger] order[at]] == others[order[at]],
    ensures
        expired_clients(table, order, deadline) == expired_clients(others, order, deadline),
    decreases order.len(),
{
    if order.len() > 0 {
        let rest = order.drop_last();
        assert forall|at: int| 0 <= at < rest.len() implies table[#[trigger] rest[at]]
            == others[rest[at]] by {
            assert(rest[at] == order[at]);
        }
        lemma_expired_clients_elsewhere(table, others, rest, deadline);
        assert(table[order[order.len() - 1]] == others[order[order.len() - 1]]);
    }
}

proof fn lemma_survivors_and_expired(idle: Seq<IdleState>, deadline: int)
    ensures
        idle.len() == idle.filter(|entry: IdleState| entry.since >= deadline).len() + idle.filter(
            |entry: IdleState| entry.since < deadline,
        ).len(),
    decreases idle.len(),
{
    let fresh = |entry: IdleState| entry.since >= deadline;
    let stale = |entry: IdleState| entry.since < deadline;
    if idle.len() == 0 {
        idle.lemma_filter_len(fresh);
        idle.lemma_filter_len(stale);
    } else {
        let rest = idle.drop_last();
        let last = idle.last();
        lemma_survivors_and_expired(rest, deadline);
        assert(idle =~= rest.push(last));
        rest.lemma_filter_push(last, fresh);
        rest.lemma_filter_push(last, stale);
    }
}

/// The numbers that an eviction reports are those of the connections that expire.
pub proof fn law_eviction_reports_the_expired(
    before: EndpointTable,
    after: EndpointTable,
    dropped: Seq<u64>,
    deadline: int,
    client: u64,
)
    requires
        evicts(before, after, dropped, deadline),
    ensures
        dropped.contains(client) <==> exists|id: EndpointId, at: int| #[trigger]
            idle_at(before, id, at) && before[id].idle[at].client == client
                && before[id].idle[at].since < deadline,
{
    let order = choose|order: Seq<EndpointId>|
        lists_endpoints(order, before) && dropped == #[trigger] expired_clients(
            before,
            order,
            deadline,
        );
    lemma_reported(before, order, deadline, client);
    if dropped.contains(client) {
        let (id, at) = choose|id: EndpointId, at: int| #[trigger]
            listed_at(before, order, id, at) && before[id].idle[at].client == client
                && before[id].idle[at].since < deadline;
        assert(idle_at(before, id, at));
    }
    if exists|id: EndpointId, at: int| #[trigger]
        idle_at(before, id, at) && before[id].idle[at].client == client
            && before[id].idle[at].since < deadline {
        let (id, at) = choose|id: EndpointId, at: int| #[trigger]
            idle_at(before, id, at) && before[id].idle[at].client == client
                && before[id].idle[at].since < deadline;
        assert(order.contains(id));
        assert(listed_at(before, order, id, at));
    }
}

/// One of the endpoints in `order` has an idle connection at this place.
spec fn listed_at(table: EndpointTable, order: Seq<EndpointId>, id: EndpointId, at: int) -> bool {
    order.contains(id) && 0 <= at < table[id].idle.len()
}

proof fn lemma_reported(
    table: EndpointTable,
    order: Seq<EndpointId>,
    deadline: int,
    client: u64,
)
    ensures
        expired_clients(table, order, deadline).contains(client) <==> exists|
            id: EndpointId,
            at: int,
        | #[trigger]
            listed_at(table, order, id, at) && table[id].idle[at].client == client
                && table[id].idle[at].since < deadline,
    decreases order.len(),
{
    let all = expired_clients(table, order, deadline);
    if order.len() == 0 {
        assert(all.len() == 0);
    } else {
        let rest = order.drop_last();
        let last = order.last();
        let stale = |entry: IdleState| entry.since < deadline;
        let idle = table[last].idle;
        let expired = table[last].expired(deadline);
        let earlier = expired_clients(table, rest, deadline);
        lemma_reported(table, rest, deadline, client);
        if all.contains(client) {
            let place = choose|place: int| 0 <= place < all.len() && all[place] == client;
            if place < earlier.len() {
                assert(earlier[place] == client);
                assert(earlier.contains(client));
                let (id, at) = choose|id: EndpointId, at: int| #[trigger]
                    listed_at(table, rest, id, at) && table[id].idle[at].client == client
                        && table[id].idle[at].since < deadline;
                let seat = choose|seat: int| 0 <= seat < rest.len() && rest[seat] == id;
                assert(order[seat] == id);
                assert(listed_at(table, order, id, at));
            } else {
                let entry = expired[place - earlier.len()];
                idle.lemma_filter_pred(stale, place - earlier.len());
                assert(expired.contains(entry));
                idle.lemma_filter_contains_rev(stale, entry);
                let at = choose|at: int| 0 <= at < idle.len() && idle[at] == entry;
                assert(order[order.len() - 1] == last);
                assert(listed_at(table, order, last, at));
            }
        }
        if exists|id: EndpointId, at: int| #[trigger]
            listed_at(table, order, id, at) && table[id].idle[at].client == client
                && table[id].idle[at].since < deadline {
            let (id, at) = choose|id: EndpointId, at: int| #[trigger]
                listed_at(table, order, id, at) && table[id].idle[at].client == client
                    && table[id].idle[at].since < deadline;
            let seat = choose|seat: int| 0 <= seat < order.len() && order[seat] == id;
            if seat < rest.len() {
                assert(rest[seat] == id);
                assert(listed_at(table, rest, id, at));
                assert(earlier.contains(client));
                let place = choose|place: int| 0 <= place < earlier.len() && earlier[place] == client;
                assert(all[place] == client);
            } else {
                idle.lemma_filter_contains(stale, at);
                let spot = choose|spot: int| 0 <= spot < expired.len() && expired[spot] == idle[at];
                assert(clients(expired)[spot] == client);
                assert(all[earlier.len() + spot] == client);
            }
        }
    }
}

/// Every connection that is checked out or about to be opened has a permit of its
/// own: the permits that an endpoint has handed out are those of its connections
/// that are checked out and of those about to be opened.
pub proof fn law_permits_are_accounted_for(state: PoolState, id: EndpointId)
    requires
        state.wf(),
    ensures
        state.endpoint(id).checked_out() == leases_of(state.leases, id).len() + state.opening(id),
        0 <= state.opening(id),
{
}

/// A connection is in one place only: while it is checked out it is not idle, and
/// while it is idle it is so once.
pub proof fn law_connection_is_in_one_place(state: PoolState, number: u64)
    requires
        state.wf(),
    ensures
        !(state.leases.contains_key(number) && is_idle(state.table, number)),
        idle_once(state.table),
{
}

/// `events` lead a new pool through `states`.
pub open spec fn is_history(states: Seq<PoolState>, events: Seq<Event>) -> bool {
    &&& states.len() == events.len() + 1
    &&& states[0] == PoolState::empty()
    &&& forall|at: int|
        0 <= at < events.len() ==> #[trigger] states[at].step(events[at], states[at + 1])
}

/// Whatever happened to it, a pool is well-formed.
pub proof fn law_every_pool_is_wf(states: Seq<PoolState>, events: Seq<Event>, at: int)
    requires
        is_history(states, events),
        0 <= at <= events.len(),
    ensures
        states[at].wf(),
    decreases at,
{
    if at == 0 {
        lemma_empty_pool_is_wf();
    } else {
        law_every_pool_is_wf(states, events, at - 1);
        assert(states[at - 1].step(events[at - 1], states[at - 1 + 1]));
        lemma_step_keeps_wf(states[at - 1], events[at - 1], states[at]);
    }
}

/// Checkout is exclusive: as long as whoever was handed a connection has neither
/// returned it nor given it up, it is checked out and not idle, and nobody else is
/// handed it. So two users never hold one connection.
pub proof fn law_checkout_is_exclusive(
    states: Seq<PoolState>,
    events: Seq<Event>,
    handed_out: int,
    later: int,
    number: u64,
)
    requires
        is_history(states, events),
        0 <= handed_out < later <= events.len(),
        events[handed_out].hands_out(number),
        forall|at: int|
            handed_out < at < later ==> !(#[trigger] events[at]).ends_lease(number),
    ensures
        states[later].leases.contains_key(number),
        !is_idle(states[later].table, number),
        later < events.len() ==> !events[later].hands_out(number),
    decreases later,
{
    law_every_pool_is_wf(states, events, later - 1);
    law_every_pool_is_wf(states, events, later);
    assert(states[later - 1].step(events[later - 1], states[later - 1 + 1]));
    if later - 1 > handed_out {
        law_checkout_is_exclusive(states, events, handed_out, later - 1, number);
        assert(!events[later - 1].ends_lease(number));
    }
    assert(states[later].leases.contains_key(number));
    if later < events.len() {
        assert(states[later].step(events[later], states[later + 1]));
        if events[later].hands_out(number) {
            lemma_handed_out_was_free(states[later], events[later], states[later + 1], number);
        }
    }
}

/// Only a connection that is not checked out, and is not gone, is handed out.
proof fn lemma_handed_out_was_free(
    state: PoolState,
    event: Event,
    after: PoolState,
    number: u64,
)
    requires
        state.wf(),
        state.step(event, after),
        event.hands_out(number),
    ensures
        !state.leases.contains_key(number),
        !state.gone(number),
{
    if let Event::Reused { id, .. } = event {
        assert(idle_at(state.table, id, state.endpoint(id).idle.len() - 1));
        assert(is_idle(state.table, number));
    }
}

/// A connection that is gone from the pool stays gone.
proof fn lemma_gone_stays_gone(state: PoolState, event: Event, after: PoolState, number: u64)
    requires
        state.wf(),
        state.step(event, after),
        state.gone(number),
    ensures
        after.gone(number),
{
    if event.hands_out(number) {
        lemma_handed_out_was_free(state, event, after, number);
    }
    match event {
        Event::Reused { id, .. } => {
            law_checkout_and_discard_make_nothing_idle(state.table, id, number);
        },
        Event::SlotTaken { id } => {
            law_checkout_and_discard_make_nothing_idle(state.table, id, number);
        },
        Event::Opened { .. } => {},
        Event::Failed { id } => {
            lemma_permit_is_held(state, id);
            law_checkout_and_discard_make_nothing_idle(state.table, id, number);
        },
        Event::Returned { id, number: returned, now } => {
            assert(state.holds(id, returned));
            lemma_permit_is_held(state, id);
            law_return_makes_one_connection_idle(state.table, id, returned, now, number);
        },
        Event::Discarded { id, number: discarded } => {
            assert(state.holds(id, discarded));
            lemma_permit_is_held(state, id);
            law_checkout_and_discard_make_nothing_idle(state.table, id, number);
        },
        Event::Evicted { deadline } => {
            law_eviction_makes_nothing_idle(state.table, deadline, number);
        },
    }
}

/// A connection that is gone from the pool is never idle, checked out or handed
/// out again.
pub proof fn law_gone_for_good(
    states: Seq<PoolState>,
    events: Seq<Event>,
    since: int,
    later: int,
    number: u64,
)
    requires
        is_history(states, events),
        0 <= since <= later <= events.len(),
        states[since].gone(number),
    ensures
        states[later].gone(number),
        later < events.len() ==> !events[later].hands_out(number),
    decreases later,
{
    law_every_pool_is_wf(states, events, later);
    if later > since {
        law_gone_for_good(states, events, since, later - 1, number);
        law_every_pool_is_wf(states, events, later - 1);
        assert(states[later - 1].step(events[later - 1], states[later - 1 + 1]));
        lemma_gone_stays_gone(states[later - 1], events[later - 1], states[later], number);
    }
    if later < events.len() {
        assert(states[later].step(events[later], states[later + 1]));
        if events[later].hands_out(number) {
            lemma_handed_out_was_free(states[later], events[later], states[later + 1], number);
        }
    }
}

/// A connection that was given up is never idle, checked out or handed out again.
pub proof fn law_discarded_connection_never_comes_back(
    states: Seq<PoolState>,
    events: Seq<Event>,
    discarded: int,
    later: int,
    id: EndpointId,
    number: u64,
)
    requires
        is_history(states, events),
        0 <= discarded < later <= events.len(),
        events[discarded] == (Event::Discarded { id, number }),
    ensures
        states[later].gone(number),
        later < events.len() ==> !events[later].hands_out(number),
{
    law_every_pool_is_wf(states, events, discarded);
    assert(states[discarded].step(events[discarded], states[discarded + 1]));
    assert(states[discarded].holds(id, number));
    lemma_permit_is_held(states[discarded], id);
    law_checkout_and_discard_make_nothing_idle(states[discarded].table, id, number);
    law_gone_for_good(states, events, discarded + 1, later, number);
}

/// A connection that an eviction dropped is never idle, checked out or handed out
/// again.
pub proof fn law_evicted_connection_never_comes_back(
    states: Seq<PoolState>,
    events: Seq<Event>,
    evicted: int,
    later: int,
    deadline: int,
    dropped: Seq<u64>,
    number: u64,
)
    requires
        is_history(states, events),
        0 <= evicted < later <= events.len(),
        events[evicted] == (Event::Evicted { deadline }),
        evicts(states[evicted].table, states[evicted + 1].table, dropped, deadline),
        dropped.contains(number),
    ensures
        states[later].gone(number),
        later < events.len() ==> !events[later].hands_out(number),
{
    let before = states[evicted];
    let after = states[evicted + 1];
    law_every_pool_is_wf(states, events, evicted);
    assert(before.step(events[evicted], after));
    law_eviction_reports_the_expired(before.table, after.table, dropped, deadline, number);
    let (id, at) = choose|id: EndpointId, at: int| #[trigger]
        idle_at(before.table, id, at) && before.table[id].idle[at].client == number
            && before.table[id].idle[at].since < deadline;
    assert(is_idle(before.table, number));
    if is_idle(after.table, number) {
        let (id2, at2) = choose|id2: EndpointId, at2: int| #[trigger]
            idle_at(after.table, id2, at2) && after.table[id2].idle[at2].client == number;
        let from = lemma_survivor_position(before.table[id2].idle, deadline, at2);
        assert(idle_at(before.table, id2, from));
        before.table[id2].idle.lemma_filter_pred(
            |entry: IdleState| entry.since >= deadline,
            at2,
        );
        assert(false);
    }
    law_gone_for_good(states, events, evicted + 1, later, number);
}

/// Endpoints that differ in host, port or settings have different names, and one
/// endpoint has one name only.
pub proof fn law_names_tell_endpoints_apart(
    host1: Seq<char>,
    port1: u16,
    config1: GrpcClientConfig,
    host2: Seq<char>,
    port2: u16,
    config2: GrpcClientConfig,
)
    ensures
        endpoint_id(host1, port1, config1) == endpoint_id(host2, port2, config2) <==> host1 == host2
            && port1 == port2 && config1 == config2,
{
}

/// Two keys stand for one endpoint exactly if they agree in host, port and
/// settings.
pub proof fn law_keys_tell_endpoints_apart(key1: EndpointKey, key2: EndpointKey)
    ensures
        key_id(key1) == key_id(key2) <==> key1.0@ == key2.0@ && key1.1 == key2.1 && key1.2
            == key2.2,
{
}

/// A request asks for a connection exactly if it holds what a connection is opened
/// with: host, port, message size, security, and how to try again.
pub proof fn law_request_holds_what_it_asks_for(
    request: ConnectRequest,
    host: Seq<char>,
    port: u16,
    config: GrpcClientConfig,
)
    ensures
        request.asks_for(host, port, config) <==> request.host@ == host && request.port == port
            && request.max_message_size == config.max_message_size && request.use_tls
            == config.use_tls && request.io_retries_times == config.io_retries_times
            && request.io_retry_wait_time_ms == config.io_retry_wait_time_ms,
{
}

/// What is said of the endpoint of a name is said of what the table holds under
/// it. A name that the table does not hold is that of an endpoint without
/// connections, all of whose permits are free.
pub proof fn law_unknown_endpoint_is_empty(table: EndpointTable, id: EndpointId)
    ensures
        table.contains_key(id) ==> endpoint_in(table, id) == table[id],
        !table.contains_key(id) ==> endpoint_in(table, id).idle.len() == 0 && endpoint_in(
            table,
            id,
        ).available == MAX_CONNECTIONS_PER_ENDPOINT,
{
}

/// A permit is either free or handed out, and there are as many as the maximum of
/// connections.
pub proof fn law_permits_are_free_or_handed_out(state: EndpointState)
    ensures
        state.checked_out() + state.available == MAX_CONNECTIONS_PER_ENDPOINT,
{
}

/// A new pool has no endpoints and no idle connections, nothing is checked out of
/// it, and its first connection gets the number zero.
pub proof fn law_new_pool_is_empty()
    ensures
        forall|id: EndpointId| !#[trigger] PoolState::empty().table.contains_key(id),
        forall|number: u64| !#[trigger] PoolState::empty().leases.contains_key(number),
        PoolState::empty().opened == 0,
        total_idle(PoolState::empty().table) == 0,
{
}

/// Every endpoint counts with all its idle connections: none without endpoints,
/// and one endpoint more counts for as many as it has.
pub proof fn law_every_idle_connection_counts(
    table: EndpointTable,
    id: EndpointId,
    state: EndpointState,
)
    requires
        table.dom().finite(),
        !table.contains_key(id),
    ensures
        total_idle(Map::<EndpointId, EndpointState>::empty()) == 0,
        total_idle(table.insert(id, state)) == total_idle(table) + state.idle.len(),
{
    lemma_total_idle_insert(table, id, state);
}

/// Reusing a connection takes the one that was returned last out of the idle ones
/// of its endpoint, together with a permit, and checks it out. The other
/// endpoints stay as they were.
pub proof fn law_reuse_takes_the_last_idle_connection(
    state: PoolState,
    after: PoolState,
    id: EndpointId,
    number: u64,
)
    requires
        state.wf(),
        state.step(Event::Reused { id, number }, after),
    ensures
        state.table.contains_key(id) && after.table.contains_key(id),
        state.table[id].available > 0,
        state.table[id].idle.len() > 0,
        state.table[id].idle.last().client == number,
        after.table[id].idle == state.table[id].idle.drop_last(),
        after.table[id].available == state.table[id].available - 1,
        after.table.remove(id) == state.table.remove(id),
        !state.leases.contains_key(number),
        after.leases == state.leases.insert(number, id),
        after.opened == state.opened,
        total_idle(after.table) == total_idle(state.table) - 1,
{
    law_checkout_counts_one_less(state.table, id);
    assert(after.table.remove(id) =~= state.table.remove(id));
    lemma_handed_out_was_free(state, Event::Reused { id, number }, after, number);
}

/// A connection is opened only to an endpoint that has no idle one and a free
/// permit, which is then taken. Nothing else changes: no connection is handed out,
/// none stops being idle, and the other endpoints stay as they were.
pub proof fn law_opening_takes_a_permit(state: PoolState, after: PoolState, id: EndpointId)
    requires
        state.wf(),
        state.step(Event::SlotTaken { id }, after),
    ensures
        state.table.contains_key(id) ==> state.table[id].idle.len() == 0
            && state.table[id].available > 0,
        after.table.contains_key(id),
        after.table[id].idle.len() == 0,
        after.table[id].available == if state.table.contains_key(id) {
            state.table[id].available - 1
        } else {
            MAX_CONNECTIONS_PER_ENDPOINT - 1
        },
        after.table.remove(id) == state.table.remove(id),
        after.leases == state.leases,
        after.opened == state.opened,
        total_idle(after.table) == total_idle(state.table),
{
    law_checkout_counts_one_less(state.table, id);
    assert(after.table.remove(id) =~= state.table.remove(id));
}

/// A connection that was opened is checked out under the next number, with the
/// permit that was taken for it. No endpoint changes.
pub proof fn law_opened_connection_gets_the_next_number(
    state: PoolState,
    after: PoolState,
    id: EndpointId,
    number: u64,
)
    requires
        state.wf(),
        state.step(Event::Opened { id, number }, after),
    ensures
        number == state.opened,
        after.opened == state.opened + 1,
        !state.leases.contains_key(number),
        !is_idle(state.table, number),
        after.leases == state.leases.insert(number, id),
        after.table == state.table,
        total_idle(after.table) == total_idle(state.table),
{
}

/// A connection that could not be opened gives its permit back, and changes
/// nothing else.
pub proof fn law_failure_frees_one_permit(state: PoolState, after: PoolState, id: EndpointId)
    requires
        state.wf(),
        state.step(Event::Failed { id }, after),
    ensures
        state.table.contains_key(id) && after.table.contains_key(id),
        after.table[id].idle == state.table[id].idle,
        after.table[id].available == state.table[id].available + 1,
        after.table.remove(id) == state.table.remove(id),
        after.leases == state.leases,
        after.opened == state.opened,
        total_idle(after.table) == total_idle(state.table),
{
    lemma_permit_is_held(state, id);
    law_discard_counts_the_same(state.table, id);
    assert(after.table.remove(id) =~= state.table.remove(id));
}

/// Whatever is idle already, a connection that is returned joins the idle ones of
/// its endpoint as the last of them, idle since now, and its permit is free again.
/// The pool has one idle connection more, and the other endpoints stay as they
/// were.
pub proof fn law_return_adds_the_connection_to_the_idle_ones(
    state: PoolState,
    after: PoolState,
    id: EndpointId,
    number: u64,
    now: int,
)
    requires
        state.wf(),
        state.step(Event::Returned { id, number, now }, after),
    ensures
        state.table.contains_key(id) && after.table.contains_key(id),
        after.table[id].idle == state.table[id].idle.push(IdleState { client: number, since: now }),
        after.table[id].available == state.table[id].available + 1,
        after.table.remove(id) == state.table.remove(id),
        state.leases.contains_key(number) && state.leases[number] == id,
        after.leases == state.leases.remove(number),
        after.opened == state.opened,
        total_idle(after.table) == total_idle(state.table) + 1,
{
    assert(state.holds(id, number));
    lemma_permit_is_held(state, id);
    law_return_counts_one_more(state.table, id, number, now);
    assert(after.table.remove(id) =~= state.table.remove(id));
}

/// Giving a connection up frees its permit and ends its lease. Every connection
/// that is idle stays so, in its place, and the other endpoints stay as they were.
pub proof fn law_discard_leaves_the_idle_ones_alone(
    state: PoolState,
    after: PoolState,
    id: EndpointId,
    number: u64,
)
    requires
        state.wf(),
        state.step(Event::Discarded { id, number }, after),
    ensures
        state.table.contains_key(id) && after.table.contains_key(id),
        after.table[id].idle == state.table[id].idle,
        after.table[id].available == state.table[id].available + 1,
        after.table.remove(id) == state.table.remove(id),
        state.leases.contains_key(number) && state.leases[number] == id,
        after.leases == state.leases.remove(number),
        after.opened == state.opened,
        total_idle(after.table) == total_idle(state.table),
{
    assert(state.holds(id, number));
    lemma_permit_is_held(state, id);
    law_discard_counts_the_same(state.table, id);
    assert(after.table.remove(id) =~= state.table.remove(id));
}

/// An eviction keeps of every endpoint exactly the idle connections that were
/// returned at the deadline or later. It checks nothing out or in, leaves every
/// permit where it is, and keeps exactly the endpoints that have a connection
/// left, be it idle or checked out.
pub proof fn law_eviction_keeps_what_is_in_time(
    state: PoolState,
    after: PoolState,
    deadline: int,
    id: EndpointId,
    entry: IdleState,
)
    requires
        state.wf(),
        state.step(Event::Evicted { deadline }, after),
    ensures
        after.leases == state.leases,
        after.opened == state.opened,
        after.table.contains_key(id) ==> state.table.contains_key(id) && after.table[id].available
            == state.table[id].available,
        after.table.contains_key(id) ==> after.table[id].idle.len() > 0 || after.table[id].available
            < MAX_CONNECTIONS_PER_ENDPOINT,
        state.table.contains_key(id) && state.table[id].available < MAX_CONNECTIONS_PER_ENDPOINT
            ==> after.table.contains_key(id),
        after.table.contains_key(id) && after.table[id].idle.contains(entry)
            <==> state.table.contains_key(id) && state.table[id].idle.contains(entry) && entry.since
            >= deadline,
{
    law_eviction_drops_the_expired(state.table, deadline, id, entry);
}

/// The connections that an eviction keeps stay in their order: of two that are
/// idle at one endpoint afterwards, the one that comes first came first before.
pub proof fn law_eviction_keeps_the_order(
    state: PoolState,
    after: PoolState,
    deadline: int,
    id: EndpointId,
    first: int,
    second: int,
) -> (places: (int, int))
    requires
        state.wf(),
        state.step(Event::Evicted { deadline }, after),
        after.table.contains_key(id),
        0 <= first < second < after.table[id].idle.len(),
    ensures
        state.table.contains_key(id),
        0 <= places.0 < places.1 < state.table[id].idle.len(),
        state.table[id].idle[places.0] == after.table[id].idle[first],
        state.table[id].idle[places.1] == after.table[id].idle[second],
{
    let idle = state.table[id].idle;
    let from1 = lemma_survivor_position(idle, deadline, first);
    let from2 = lemma_survivor_position(idle, deadline, second);
    if from1 >= from2 {
        lemma_survivors_grow(idle, deadline, from2, from1);
    }
    (from1, from2)
}

proof fn lemma_survivors_grow(idle: Seq<IdleState>, deadline: int, fewer: int, more: int)
    requires
        0 <= fewer <= more <= idle.len(),
    ensures
        survivors_before(idle, deadline, fewer) <= survivors_before(idle, deadline, more),
    decreases more - fewer,
{
    if fewer < more {
        lemma_survivors_grow(idle, deadline, fewer, more - 1);
        assert(idle.take(more) =~= idle.take(more - 1).push(idle[more - 1]));
        idle.take(more - 1).lemma_filter_push(
            idle[more - 1],
            |entry: IdleState| entry.since >= deadline,
        );
    }
}

/// An endpoint's eviction judges every idle connection by itself: one that was
/// returned at the deadline or later stays, behind those that stay before it, and
/// any other one expires. Permits do not count for it, except that an endpoint with
/// one handed out is kept, as is one with an idle connection left.
pub proof fn law_eviction_judges_each_connection_by_itself(
    state: EndpointState,
    deadline: int,
    entry: IdleState,
)
    ensures
        ({
            let more = EndpointState {
                idle: state.idle.push(entry),
                available: state.available,
            };
            &&& more.after_evict(deadline).idle == if entry.since >= deadline {
                state.after_evict(deadline).idle.push(entry)
            } else {
                state.after_evict(deadline).idle
            }
            &&& more.expired(deadline) == if entry.since < deadline {
                state.expired(deadline).push(entry)
            } else {
                state.expired(deadline)
            }
        }),
        state.idle.len() == 0 ==> state.after_evict(deadline).idle.len() == 0 && state.expired(
            deadline,
        ).len() == 0,
        state.after_evict(deadline).available == state.available,
        state.kept(deadline) <==> state.after_evict(deadline).idle.len() > 0 || state.available
            < MAX_CONNECTIONS_PER_ENDPOINT,
{
    let fresh = |entry: IdleState| entry.since >= deadline;
    let stale = |entry: IdleState| entry.since < deadline;
    state.idle.lemma_filter_push(entry, fresh);
    state.idle.lemma_filter_push(entry, stale);
    state.idle.lemma_filter_len(fresh);
    state.idle.lemma_filter_len(stale);
}

/// The clock counts every second and every nanosecond since its origin, up to the
/// latest moment.
pub proof fn law_clock_counts_all_time(secs: u64, nanos: u32)
    requires
        nanos < NANOS_PER_SEC,
    ensures
        secs * NANOS_PER_SEC + nanos <= MAX_MOMENT_NANOS ==> shown((secs, nanos)) == secs
            * NANOS_PER_SEC + nanos,
        secs * NANOS_PER_SEC + nanos > MAX_MOMENT_NANOS ==> shown((secs, nanos))
            == MAX_MOMENT_NANOS,
{
}

/// When a pool reads its clock it goes by what the clock reads, seconds and
/// nanoseconds together, unless it went by a later moment already.
pub proof fn law_pool_goes_by_its_clock(
    before: DefaultBallistaClientPool,
    after: DefaultBallistaClientPool,
)
    requires
        after.read_the_clock(before),
    ensures
        after.readings().len() > 0,
        after.readings() == before.readings().push(after.readings().last()),
        ({
            let (secs, nanos) = after.readings().last();
            let elapsed = secs * NANOS_PER_SEC + nanos;
            &&& before.latest() <= elapsed <= MAX_MOMENT_NANOS ==> after.latest() == elapsed
            &&& elapsed <= MAX_MOMENT_NANOS && elapsed <= before.latest() ==> after.latest()
                == before.latest()
            &&& elapsed > MAX_MOMENT_NANOS >= before.latest() ==> after.latest()
                == MAX_MOMENT_NANOS
        }),
{
    assert(after.readings() =~= before.readings().push(after.readings().last()));
}

/// A connection that was returned when the clock read one time, and that an
/// eviction finds when the clock reads another, is dropped exactly if more time
/// than the timeout lies between the two readings.
pub proof fn law_idle_time_is_time_on_the_clock(
    before: DefaultBallistaClientPool,
    after: DefaultBallistaClientPool,
    returned: (u64, u32),
    id: EndpointId,
    client: u64,
)
    requires
        before.wf(),
        after.read_the_clock(before),
        before.state().step(
            Event::Evicted { deadline: after.latest() - before.timeout() },
            after.state(),
        ),
        before@.contains_key(id),
        returned.0 * NANOS_PER_SEC + returned.1 <= MAX_MOMENT_NANOS,
        before.latest() <= after.readings().last().0 * NANOS_PER_SEC + after.readings().last().1
            <= MAX_MOMENT_NANOS,
        before@[id].idle.contains(IdleState { client, since: shown(returned) }),
    ensures
        ({
            let read = after.readings().last();
            let idle_for = (read.0 * NANOS_PER_SEC + read.1) - (returned.0 * NANOS_PER_SEC
                + returned.1);
            after@.contains_key(id) && after@[id].idle.contains(
                IdleState { client, since: shown(returned) },
            ) <==> idle_for <= before.timeout()
        }),
{
    law_pool_goes_by_its_clock(before, after);
    law_eviction_keeps_what_is_in_time(
        before.state(),
        after.state(),
        after.latest() - before.timeout(),
        id,
        IdleState { client, since: shown(returned) },
    );
}

/// Pools with the same settings have one timeout, one interval and one clock.
pub proof fn law_settings_are_timeout_interval_and_clock(
    one: DefaultBallistaClientPool,
    other: DefaultBallistaClientPool,
)
    ensures
        one.same_settings(other) <==> one.timeout() == other.timeout() && one.interval()
            == other.interval() && one.clock_origin() == other.clock_origin(),
{
}

/// Before the event at `at`, a connection to the endpoint was opened as `number`.
spec fn was_opened(events: Seq<Event>, at: int, id: EndpointId, number: u64) -> bool {
    exists|opened: int|
        0 <= opened < at && #[trigger] events[opened] == (Event::Opened { id, number })
}

proof fn lemma_opened_stays_opened(
    events: Seq<Event>,
    at: int,
    later: int,
    id: EndpointId,
    number: u64,
)
    requires
        was_opened(events, at, id, number),
        at <= later,
    ensures
        was_opened(events, later, id, number),
{
    let opened = choose|opened: int|
        0 <= opened < at && #[trigger] events[opened] == (Event::Opened { id, number });
    assert(events[opened] == (Event::Opened { id, number }));
}

proof fn lemma_all_were_opened(states: Seq<PoolState>, events: Seq<Event>, at: int)
    requires
        is_history(states, events),
        0 <= at <= events.len(),
    ensures
        forall|number: u64| #[trigger]
            states[at].leases.contains_key(number) ==> was_opened(
                events,
                at,
                states[at].leases[number],
                number,
            ),
        forall|id: EndpointId, place: int| #[trigger]
            idle_at(states[at].table, id, place) ==> was_opened(
                events,
                at,
                id,
                states[at].table[id].idle[place].client,
            ),
    decreases at,
{
    if at > 0 {
        let state = states[at - 1];
        let after = states[at];
        let event = events[at - 1];
        lemma_all_were_opened(states, events, at - 1);
        law_every_pool_is_wf(states, events, at - 1);
        assert(states[at - 1].step(events[at - 1], states[at - 1 + 1]));
        assert forall|number: u64| #[trigger] after.leases.contains_key(number) implies was_opened(
            events,
            at,
            after.leases[number],
            number,
        ) by {
            let id = after.leases[number];
            if event == (Event::Opened { id, number }) {
                assert(events[at - 1] == (Event::Opened { id, number }));
            } else if event == (Event::Reused { id, number }) {
                assert(idle_at(state.table, id, state.endpoint(id).idle.len() - 1));
                lemma_opened_stays_opened(events, at - 1, at, id, number);
            } else {
                assert(state.leases.contains_key(number) && state.leases[number] == id);
                lemma_opened_stays_opened(events, at - 1, at, id, number);
            }
        }
        assert forall|id: EndpointId, place: int| #[trigger]
            idle_at(after.table, id, place) implies was_opened(
            events,
            at,
            id,
            after.table[id].idle[place].client,
        ) by {
            let client = after.table[id].idle[place].client;
            lemma_idle_was_idle_or_held(state, event, after, id, place);
            lemma_opened_stays_opened(events, at - 1, at, id, client);
        }
    } else {
        assert(states[0] == PoolState::empty());
    }
}

/// What is idle at an endpoint after a step was idle there before, or was checked
/// out of it.
proof fn lemma_idle_was_idle_or_held(
    state: PoolState,
    event: Event,
    after: PoolState,
    id: EndpointId,
    place: int,
)
    requires
        state.wf(),
        state.step(event, after),
        idle_at(after.table, id, place),
    ensures
        ({
            let client = after.table[id].idle[place].client;
            ||| state.leases.contains_key(client) && state.leases[client] == id
            ||| exists|from: int| #[trigger]
                idle_at(state.table, id, from) && state.table[id].idle[from].client == client
        }),
{
    match event {
        Event::Returned { id: back, number, now } => {
            law_return_adds_the_connection_to_the_idle_ones(state, after, back, number, now);
            if back != id || place < state.table[id].idle.len() {
                assert(after.table.remove(back) == state.table.remove(back));
                assert(back != id ==> after.table.remove(back)[id] == after.table[id]);
                assert(back != id ==> after.table.remove(back).contains_key(id));
                assert(idle_at(state.table, id, place));
            }
        },
        Event::Evicted { deadline } => {
            let from = lemma_survivor_position(state.table[id].idle, deadline, place);
            assert(idle_at(state.table, id, from));
        },
        Event::Failed { id: failed } => {
            lemma_permit_is_held(state, failed);
            assert(idle_at(state.table, id, place));
        },
        Event::Discarded { id: gone, number } => {
            assert(state.holds(gone, number));
            lemma_permit_is_held(state, gone);
            assert(idle_at(state.table, id, place));
        },
        _ => {
            assert(idle_at(state.table, id, place));
        },
    }
}

/// How many connections have been opened never falls.
proof fn lemma_opened_grows(states: Seq<PoolState>, events: Seq<Event>, from: int, to: int)
    requires
        is_history(states, events),
        0 <= from <= to <= events.len(),
    ensures
        states[from].opened <= states[to].opened,
    decreases to - from,
{
    if from < to {
        lemma_opened_grows(states, events, from, to - 1);
        assert(states[to - 1].step(events[to - 1], states[to - 1 + 1]));
    }
}

/// No number is given to two connections: one that is opened later gets a greater
/// one.
pub proof fn law_each_number_is_given_once(
    states: Seq<PoolState>,
    events: Seq<Event>,
    first: int,
    second: int,
    id1: EndpointId,
    number1: u64,
    id2: EndpointId,
    number2: u64,
)
    requires
        is_history(states, events),
        0 <= first < second < events.len(),
        events[first] == (Event::Opened { id: id1, number: number1 }),
        events[second] == (Event::Opened { id: id2, number: number2 }),
    ensures
        number1 < number2,
{
    assert(states[first].step(events[first], states[first + 1]));
    assert(states[second].step(events[second], states[second + 1]));
    lemma_opened_grows(states, events, first + 1, second);
}

/// A connection that is reused for an endpoint was opened to that very endpoint.
pub proof fn law_reused_connection_was_opened_to_its_endpoint(
    states: Seq<PoolState>,
    events: Seq<Event>,
    reused: int,
    id: EndpointId,
    number: u64,
) -> (opened: int)
    requires
        is_history(states, events),
        0 <= reused < events.len(),
        events[reused] == (Event::Reused { id, number }),
    ensures
        0 <= opened < reused,
        events[opened] == (Event::Opened { id, number }),
{
    lemma_all_were_opened(states, events, reused);
    assert(states[reused].step(events[reused], states[reused + 1]));
    assert(idle_at(states[reused].table, id, states[reused].endpoint(id).idle.len() - 1));
    choose|opened: int|
        0 <= opened < reused && #[trigger] events[opened] == (Event::Opened { id, number })
}

/// Whoever asks for a host, a port and settings and is given a connection that is
/// reused gets one that was opened for the same host, port and settings.
pub proof fn law_reused_connection_leads_where_it_should(
    states: Seq<PoolState>,
    events: Seq<Event>,
    opened: int,
    reused: int,
    host1: Seq<char>,
    port1: u16,
    config1: GrpcClientConfig,
    host2: Seq<char>,
    port2: u16,
    config2: GrpcClientConfig,
    number: u64,
)
    requires
        is_history(states, events),
        0 <= opened < events.len(),
        0 <= reused < events.len(),
        events[opened] == (Event::Opened { id: endpoint_id(host1, port1, config1), number }),
        events[reused] == (Event::Reused { id: endpoint_id(host2, port2, config2), number }),
    ensures
        opened < reused,
        host1 == host2,
        port1 == port2,
        config1 == config2,
{
    let id1 = endpoint_id(host1, port1, config1);
    let id2 = endpoint_id(host2, port2, config2);
    let origin = law_reused_connection_was_opened_to_its_endpoint(
        states,
        events,
        reused,
        id2,
        number,
    );
    if origin < opened {
        law_each_number_is_given_once(states, events, origin, opened, id2, number, id1, number);
    }
    if opened < origin {
        law_each_number_is_given_once(states, events, opened, origin, id1, number, id2, number);
    }
    law_names_tell_endpoints_apart(host1, port1, config1, host2, port2, config2);
}

} // verus!
