//! The simulation as a state machine over plain values: what one step of the
//! engine does, what a whole run reaches, and what holds of every state on
//! the way.

use vstd::prelude::*;
use vstd::multiset::Multiset;
use crate::algorithms::{
    first_beyond, least_positions, lemma_cursor_step, lemma_least_positions_exact,
    lemma_weight_sum_grows, response_score,
    state_scores, state_weights, tie_choice, connection_counts, total_weight, weight_sum, Selection,
    StrategyModel,
};
use crate::events::{Event, Request, ScheduledEvent};
use crate::metrics::assigned_to;
use crate::queue::is_least;
use crate::state::{Assignment, ServerState};

verus! {

/// The engine between two events.
pub struct Machine {
    /// The events that are still to be processed.
    pub queue: Multiset<ScheduledEvent>,
    /// The clock: the time of the event processed last.
    pub time_ms: u64,
    pub servers: Seq<ServerState>,
    pub strategy: StrategyModel,
    /// The requests routed so far, in processing order.
    pub assignments: Seq<Assignment>,
}

/// The two switches that a run is made with.
pub struct Rules {
    /// Ties go to the lowest index; no stream is consulted.
    pub stable: bool,
    /// A server works on one request at a time.
    pub serialized: bool,
}

/// The test for arrival events.
pub open spec fn arrival_test() -> spec_fn(ScheduledEvent) -> bool {
    |scheduled: ScheduledEvent| scheduled.event is RequestArrival
}

/// The test for completion events of server `index`.
pub open spec fn completion_test(index: int) -> spec_fn(ScheduledEvent) -> bool {
    |scheduled: ScheduledEvent|
        scheduled.event matches Event::RequestComplete { server_id, .. } && server_id == index
}

/// How many arrivals wait in a queue.
pub open spec fn arrivals_in(queue: Multiset<ScheduledEvent>) -> nat {
    queue.filter(arrival_test()).len()
}

/// How many completions of server `index` wait in a queue.
pub open spec fn completions_in(queue: Multiset<ScheduledEvent>, index: int) -> nat {
    queue.filter(completion_test(index)).len()
}

/// The event that is processed next: the least of the queue.
pub open spec fn next_event(queue: Multiset<ScheduledEvent>) -> ScheduledEvent {
    choose|scheduled: ScheduledEvent| is_least(queue, scheduled)
}

/// A server after one of its requests has completed.
pub open spec fn released(server: ServerState) -> ServerState {
    ServerState {
        active_connections: (server.active_connections - 1) as u32,
        in_flight: (server.in_flight - 1) as u32,
        ..server
    }
}

/// When service of a request routed at `now` begins.
pub open spec fn start_time(server: ServerState, now: u64, serialized: bool) -> u64 {
    if serialized && server.next_available_ms > now {
        server.next_available_ms
    } else {
        now
    }
}

/// When that service ends.
pub open spec fn finish_time(server: ServerState, now: u64, serialized: bool) -> u64 {
    (start_time(server, now, serialized) + server.base_latency_ms) as u64
}

/// A server after a request has been routed to it at `now`.
pub open spec fn occupied(server: ServerState, now: u64, serialized: bool) -> ServerState {
    ServerState {
        active_connections: (server.active_connections + 1) as u32,
        pick_count: (server.pick_count + 1) as u32,
        in_flight: (server.in_flight + 1) as u32,
        next_available_ms: if serialized {
            finish_time(server, now, serialized)
        } else {
            server.next_available_ms
        },
        ..server
    }
}

/// The record of routing `request` to `server` at `now`.
pub open spec fn assignment_of(
    request: Request,
    server: ServerState,
    selection: Selection,
    now: u64,
    serialized: bool,
) -> Assignment {
    Assignment {
        request_id: request.id,
        server_id: selection.server_id,
        server_name: server.name,
        arrival_time_ms: request.arrival_time_ms,
        started_at: start_time(server, now, serialized),
        completed_at: finish_time(server, now, serialized),
        score: selection.score,
    }
}

/// The completion that routing schedules.
pub open spec fn completion_of(assignment: Assignment) -> ScheduledEvent {
    ScheduledEvent {
        time_ms: assignment.completed_at,
        event: Event::RequestComplete {
            server_id: assignment.server_id,
            request_id: assignment.request_id,
        },
    }
}

/// No selection of this strategy under these rules depends on a draw: the
/// tie-break is stable, or the policy has no ties.
pub open spec fn draw_free(strategy: StrategyModel, rules: Rules) -> bool {
    rules.stable || !strategy.breaks_ties()
}

/// The arrival of a request, as it is queued.
pub open spec fn arrival_of(request: Request) -> ScheduledEvent {
    ScheduledEvent { time_ms: request.arrival_time_ms, event: Event::RequestArrival(request) }
}

/// One step: the least event leaves the queue and the clock moves to it. A
/// completion frees a connection of its server. An arrival is routed by the
/// strategy among the servers as they are now, `draw` deciding a tie under
/// the seeded rule; the chosen server gains a connection, the completion is
/// scheduled and the assignment recorded. With an empty queue nothing changes.
pub open spec fn step(m: Machine, rules: Rules, draw: int) -> Machine {
    if m.queue.len() == 0 {
        m
    } else {
        let scheduled = next_event(m.queue);
        let rest = m.queue.remove(scheduled);
        match scheduled.event {
            Event::RequestComplete { server_id, .. } => Machine {
                queue: rest,
                time_ms: scheduled.time_ms,
                servers: m.servers.update(server_id as int, released(m.servers[server_id as int])),
                ..m
            },
            Event::RequestArrival(request) => {
                let selection = m.strategy.choice(m.servers, rules.stable, draw);
                let server = m.servers[selection.server_id as int];
                let assignment = assignment_of(
                    request,
                    server,
                    selection,
                    scheduled.time_ms,
                    rules.serialized,
                );
                Machine {
                    queue: rest.insert(completion_of(assignment)),
                    time_ms: scheduled.time_ms,
                    servers: m.servers.update(
                        selection.server_id as int,
                        occupied(server, scheduled.time_ms, rules.serialized),
                    ),
                    strategy: m.strategy.advanced(m.servers),
                    assignments: m.assignments.push(assignment),
                }
            },
        }
    }
}

/// The state after one step for each draw of `draws`, in order.
pub open spec fn after(start: Machine, rules: Rules, draws: Seq<int>) -> Machine
    decreases draws.len(),
{
    if draws.len() == 0 {
        start
    } else {
        step(after(start, rules, draws.drop_last()), rules, draws.last())
    }
}

/// The queue that a run starts with: one arrival for each of the first `upto` requests.
pub open spec fn arrivals_of(requests: Seq<Request>, upto: int) -> Multiset<ScheduledEvent>
    decreases upto,
{
    if upto <= 0 {
        Multiset::empty()
    } else {
        arrivals_of(requests, upto - 1).insert(arrival_of(requests[upto - 1]))
    }
}

/// The least event of a queue is determined by the queue.
pub proof fn lemma_least_is_unique(
    queue: Multiset<ScheduledEvent>,
    a: ScheduledEvent,
    b: ScheduledEvent,
)
    requires
        is_least(queue, a),
        is_least(queue, b),
    ensures
        a == b,
{
    crate::events::lemma_before_is_strict_total_order(a, b, a);
    assert(!a.before(b));
    assert(!b.before(a));
}

/// Counting by a test, when one event joins the queue.
pub proof fn lemma_count_insert<V>(m: Multiset<V>, test: spec_fn(V) -> bool, x: V)
    ensures
        m.insert(x).filter(test).len() == m.filter(test).len() + if test(x) {
            1nat
        } else {
            0nat
        },
{
    broadcast use vstd::multiset::group_multiset_axioms;
    broadcast use vstd::multiset::group_multiset_properties;

    if test(x) {
        assert(m.insert(x).filter(test) =~= m.filter(test).insert(x));
    } else {
        assert(m.insert(x).filter(test) =~= m.filter(test));
    }
}

/// Counting by a test, when one event leaves the queue.
pub proof fn lemma_count_remove<V>(m: Multiset<V>, test: spec_fn(V) -> bool, x: V)
    requires
        m.contains(x),
    ensures
        test(x) ==> m.filter(test).len() >= 1,
        m.remove(x).filter(test).len() == m.filter(test).len() - if test(x) {
            1nat
        } else {
            0nat
        },
{
    broadcast use vstd::multiset::group_multiset_axioms;
    broadcast use vstd::multiset::group_multiset_properties;

    if test(x) {
        assert(m.filter(test).count(x) >= 1);
        assert(Multiset::singleton(x).subset_of(m.filter(test))) by {
            assert forall|v: V| Multiset::singleton(x).count(v) <= m.filter(test).count(v) by {
                if v != x {
                    assert(Multiset::singleton(x).count(v) == 0);
                }
            }
        }
        assert(m.remove(x).filter(test) =~= m.filter(test).remove(x));
    } else {
        assert(m.remove(x).filter(test) =~= m.filter(test));
    }
}

/// Nothing is counted in an empty queue.
pub proof fn lemma_count_empty<V>(m: Multiset<V>, test: spec_fn(V) -> bool)
    requires
        m.len() == 0,
    ensures
        m.filter(test).len() == 0,
{
    broadcast use vstd::multiset::group_multiset_axioms;

    assert forall|v: V| m.count(v) == 0 by {
        assert(m.count(v) <= m.len());
    }
    assert(m.filter(test) =~= Multiset::empty());
}

/// The sizes that bound a run: how many requests it routes, when the last
/// one arrives and how slow the slowest server is.
pub struct Bounds {
    pub requests: int,
    pub last_arrival_ms: int,
    pub slowest_ms: int,
}

/// A run of these sizes stays within the machine's integers: the request
/// count fits the 32-bit counters, no completion time exceeds 64 bits, and
/// for the least-response-time policy no score does.
pub open spec fn within_machine_limits(bounds: Bounds, rules: Rules, strategy: StrategyModel) -> bool {
    &&& 0 <= bounds.requests <= u32::MAX
    &&& 0 <= bounds.last_arrival_ms
    &&& 0 <= bounds.slowest_ms
    &&& bounds.last_arrival_ms + (if rules.serialized {
        bounds.requests
    } else {
        1
    }) * bounds.slowest_ms <= u64::MAX
    &&& strategy is LeastResponseTime ==> bounds.slowest_ms + 10 * bounds.requests <= u64::MAX
}

/// A queued event is one that the engine can process.
pub open spec fn event_sound(scheduled: ScheduledEvent, servers: int, bounds: Bounds) -> bool {
    match scheduled.event {
        Event::RequestComplete { server_id, .. } => server_id < servers,
        Event::RequestArrival(request) => {
            &&& scheduled.time_ms == request.arrival_time_ms
            &&& scheduled.time_ms <= bounds.last_arrival_ms
        },
    }
}

/// A recorded assignment names one of the servers, by index and by name,
/// and its times are in order: arrival, start, completion.
pub open spec fn assignment_sound(assignment: Assignment, servers: Seq<ServerState>) -> bool {
    &&& assignment.server_id < servers.len()
    &&& assignment.server_name == servers[assignment.server_id as int].name
    &&& assignment.arrival_time_ms <= assignment.started_at <= assignment.completed_at
}

/// A server's counters agree with the queue and the history.
pub open spec fn server_sound(m: Machine, index: int, bounds: Bounds, rules: Rules) -> bool {
    let server = m.servers[index];
    &&& server.active_connections == completions_in(m.queue, index)
    &&& server.in_flight == server.active_connections
    &&& server.active_connections <= server.pick_count <= m.assignments.len()
    &&& server.pick_count == assigned_to(m.assignments, index)
    &&& server.base_latency_ms <= bounds.slowest_ms
    &&& rules.serialized ==> server.next_available_ms <= bounds.last_arrival_ms
        + m.assignments.len() * bounds.slowest_ms
}

/// The strategy can make its next selection among the servers.
pub open spec fn strategy_sound(strategy: StrategyModel, servers: Seq<ServerState>) -> bool {
    match strategy {
        StrategyModel::RoundRobin { next_idx } => next_idx >= 0,
        StrategyModel::WeightedRoundRobin { cursor, cache } => {
            &&& cursor >= 0
            &&& StrategyModel::cache_usable(cache)
            &&& cache.len() != servers.len() ==> 0 < total_weight(state_weights(servers))
                <= u64::MAX
        },
        StrategyModel::LeastConnections => true,
        StrategyModel::LeastResponseTime => true,
    }
}

/// What holds of every state of a run: every arrival is either routed or
/// still queued, each server's open connections are the completions that
/// wait for it, and no counter or time is about to leave its integer type.
pub open spec fn sound(m: Machine, bounds: Bounds, rules: Rules) -> bool {
    &&& within_machine_limits(bounds, rules, m.strategy)
    &&& 0 < m.servers.len() <= usize::MAX
    &&& m.assignments.len() + arrivals_in(m.queue) == bounds.requests
    &&& forall|scheduled: ScheduledEvent|
        #[trigger] m.queue.count(scheduled) > 0 ==> event_sound(
            scheduled,
            m.servers.len() as int,
            bounds,
        )
    &&& forall|index: int|
        0 <= index < m.servers.len() ==> #[trigger] server_sound(m, index, bounds, rules)
    &&& forall|k: int|
        0 <= k < m.assignments.len() ==> assignment_sound(#[trigger] m.assignments[k], m.servers)
    &&& strategy_sound(m.strategy, m.servers)
}

/// The servers of `later` are those of `earlier` with other counters.
pub open spec fn same_servers(earlier: Seq<ServerState>, later: Seq<ServerState>) -> bool {
    &&& earlier.len() == later.len()
    &&& forall|index: int|
        0 <= index < earlier.len() ==> {
            &&& (#[trigger] later[index]).id == earlier[index].id
            &&& later[index].name == earlier[index].name
            &&& later[index].base_latency_ms == earlier[index].base_latency_ms
            &&& later[index].weight == earlier[index].weight
        }
}

proof fn lemma_first_beyond_exists(sums: Seq<u64>, target: int, from: int) -> (index: int)
    requires
        0 <= from < sums.len(),
        forall|i: int, j: int| 0 <= i <= j < sums.len() ==> sums[i] <= sums[j],
        forall|j: int| 0 <= j < from ==> sums[j] <= target,
        target < sums.last(),
    ensures
        first_beyond(sums, target, index),
    decreases sums.len() - from,
{
    if target < sums[from] {
        from
    } else {
        lemma_first_beyond_exists(sums, target, from + 1)
    }
}

/// The running totals that a weighted selection works with can be bisected.
proof fn lemma_totals_usable(cache: Seq<u64>, servers: Seq<ServerState>)
    requires
        servers.len() > 0,
        StrategyModel::cache_usable(cache),
        cache.len() != servers.len() ==> 0 < total_weight(state_weights(servers)) <= u64::MAX,
    ensures
        StrategyModel::cache_usable(StrategyModel::totals_for(cache, servers)),
        StrategyModel::totals_for(cache, servers).len() == servers.len(),
        StrategyModel::totals_for(cache, servers).last() > 0,
{
    let totals = StrategyModel::totals_for(cache, servers);
    if cache.len() != servers.len() {
        let weights = state_weights(servers);
        assert forall|i: int| 0 <= i < totals.len() implies totals[i] == weight_sum(
            weights,
            i + 1,
        ) by {
            lemma_weight_sum_grows(weights, 0, i + 1);
            lemma_weight_sum_grows(weights, i + 1, weights.len() as int);
        }
        assert forall|i: int, j: int| 0 <= i <= j < totals.len() implies totals[i] <= totals[j] by {
            lemma_weight_sum_grows(weights, i + 1, j + 1);
        }
    }
}

/// A strategy that admits the servers chooses one of them.
pub proof fn lemma_choice_in_range(
    strategy: StrategyModel,
    servers: Seq<ServerState>,
    stable: bool,
    draw: int,
)
    requires
        strategy.admits(servers),
        servers.len() <= usize::MAX,
    ensures
        strategy.choice(servers, stable, draw).server_id < servers.len(),
{
    match strategy {
        StrategyModel::RoundRobin { next_idx } => {
            lemma_cursor_step(next_idx, servers.len() as int);
        },
        StrategyModel::WeightedRoundRobin { cursor, cache } => {
            lemma_totals_usable(cache, servers);
            let totals = StrategyModel::totals_for(cache, servers);
            lemma_cursor_step(cursor, totals.last() as int);
            let target = cursor % (totals.last() as int);
            let index = lemma_first_beyond_exists(totals, target, 0);
            assert(first_beyond(totals, target, (index as usize) as int));
        },
        StrategyModel::LeastConnections => {
            let counts = connection_counts(servers);
            lemma_least_positions_exact(counts);
            let found = least_positions(counts);
            let chosen = tie_choice(found, stable, draw);
            assert(chosen == found[0] || chosen == found[draw]);
        },
        StrategyModel::LeastResponseTime => {
            let scores = state_scores(servers);
            lemma_least_positions_exact(scores);
            let found = least_positions(scores);
            let chosen = tie_choice(found, stable, draw);
            assert(chosen == found[0] || chosen == found[draw]);
        },
    }
}

/// A queue that is not empty has a least event.
pub proof fn lemma_least_exists(queue: Multiset<ScheduledEvent>)
    requires
        queue.len() > 0,
    ensures
        is_least(queue, next_event(queue)),
    decreases queue.len(),
{
    broadcast use vstd::multiset::group_multiset_axioms;
    broadcast use vstd::multiset::group_multiset_properties;

    let x = queue.choose();
    let rest = queue.remove(x);
    assert(Multiset::singleton(x).subset_of(queue)) by {
        assert forall|v: ScheduledEvent| Multiset::singleton(x).count(v) <= queue.count(v) by {
            if v != x {
                assert(Multiset::singleton(x).count(v) == 0);
            }
        }
    }
    assert(rest.len() == queue.len() - 1);
    if rest.len() == 0 {
        assert forall|v: ScheduledEvent| queue.contains(v) implies !#[trigger] v.before(x) by {
            if v != x {
                assert(rest.count(v) == queue.count(v));
                assert(rest.count(v) <= rest.len());
            }
        }
        assert(is_least(queue, x));
    } else {
        lemma_least_exists(rest);
        let y = next_event(rest);
        let least = if x.before(y) {
            x
        } else {
            y
        };
        assert forall|v: ScheduledEvent| queue.contains(v) implies !#[trigger] v.before(least) by {
            crate::events::lemma_before_is_strict_total_order(v, x, y);
            crate::events::lemma_before_is_strict_total_order(v, y, x);
            if v != x {
                assert(rest.contains(v));
                assert(!v.before(y));
            }
        }
        assert(queue.contains(least));
        assert(is_least(queue, least));
    }
}

/// What the engine relies on when it processes the next event: a completion
/// names a server that has a connection to free; an arrival finds a strategy
/// that can choose, counters with room for one more and a completion time
/// that fits.
pub proof fn lemma_next_event_ready(m: Machine, bounds: Bounds, rules: Rules)
    requires
        sound(m, bounds, rules),
        m.queue.len() > 0,
    ensures
        is_least(m.queue, next_event(m.queue)),
        match next_event(m.queue).event {
            Event::RequestComplete { server_id, .. } => {
                &&& server_id < m.servers.len()
                &&& m.servers[server_id as int].active_connections > 0
                &&& m.servers[server_id as int].in_flight > 0
            },
            Event::RequestArrival(request) => {
                &&& m.assignments.len() < bounds.requests
                &&& next_event(m.queue).time_ms == request.arrival_time_ms
                &&& next_event(m.queue).time_ms <= bounds.last_arrival_ms
                &&& m.strategy.admits(m.servers)
                &&& forall|index: int|
                    0 <= index < m.servers.len() ==> {
                        let server = #[trigger] m.servers[index];
                        &&& server.active_connections < u32::MAX
                        &&& server.pick_count < u32::MAX
                        &&& server.in_flight < u32::MAX
                        &&& start_time(server, next_event(m.queue).time_ms, rules.serialized)
                            + server.base_latency_ms <= bounds.last_arrival_ms + (if rules.serialized {
                            m.assignments.len() + 1
                        } else {
                            1
                        }) * bounds.slowest_ms
                        &&& start_time(server, next_event(m.queue).time_ms, rules.serialized)
                            + server.base_latency_ms <= u64::MAX
                    }
            },
        },
{
    lemma_least_exists(m.queue);
    let scheduled = next_event(m.queue);
    assert(m.queue.count(scheduled) > 0);
    assert(event_sound(scheduled, m.servers.len() as int, bounds));
    match scheduled.event {
        Event::RequestComplete { server_id, .. } => {
            assert(server_sound(m, server_id as int, bounds, rules));
            lemma_count_remove(m.queue, completion_test(server_id as int), scheduled);
        },
        Event::RequestArrival(_) => {
            lemma_count_remove(m.queue, arrival_test(), scheduled);
            let k = m.assignments.len() as int;
            assert(k < bounds.requests);
            assert forall|index: int| 0 <= index < m.servers.len() implies {
                let server = #[trigger] m.servers[index];
                &&& server.active_connections < u32::MAX
                &&& server.pick_count < u32::MAX
                &&& server.in_flight < u32::MAX
                &&& start_time(server, scheduled.time_ms, rules.serialized) + server.base_latency_ms
                    <= bounds.last_arrival_ms + (if rules.serialized {
                    k + 1
                } else {
                    1
                }) * bounds.slowest_ms
                &&& start_time(server, scheduled.time_ms, rules.serialized) + server.base_latency_ms
                    <= u64::MAX
            } by {
                assert(server_sound(m, index, bounds, rules));
                lemma_time_budget(k, bounds.requests, bounds.slowest_ms);
            }
            match m.strategy {
                StrategyModel::LeastResponseTime => {
                    assert forall|i: int| 0 <= i < m.servers.len() implies response_score(
                        (#[trigger] m.servers[i]).base_latency_ms,
                        m.servers[i].pick_count,
                    ) <= u64::MAX by {
                        assert(server_sound(m, i, bounds, rules));
                    }
                },
                _ => {},
            }
        },
    }
}

proof fn lemma_time_budget(done: int, requests: int, slowest: int)
    requires
        0 <= done < requests,
        0 <= slowest,
    ensures
        done * slowest + slowest == (done + 1) * slowest,
        (done + 1) * slowest <= requests * slowest,
        0 <= done * slowest,
        1 * slowest == slowest,
{
    assert(done * slowest + slowest == (done + 1) * slowest) by (nonlinear_arith);
    assert((done + 1) * slowest <= requests * slowest) by (nonlinear_arith)
        requires
            done + 1 <= requests,
            0 <= slowest,
    ;
    assert(0 <= done * slowest) by (nonlinear_arith)
        requires
            0 <= done,
            0 <= slowest,
    ;
}

/// Freeing or taking a connection leaves the weights as they are.
proof fn lemma_weights_kept(earlier: Seq<ServerState>, later: Seq<ServerState>)
    requires
        same_servers(earlier, later),
    ensures
        state_weights(later) == state_weights(earlier),
{
    assert(state_weights(later) =~= state_weights(earlier));
}

/// A step keeps the state sound and the servers' identities.
pub proof fn lemma_step_sound(m: Machine, bounds: Bounds, rules: Rules, draw: int)
    requires
        sound(m, bounds, rules),
    ensures
        sound(step(m, rules, draw), bounds, rules),
        same_servers(m.servers, step(m, rules, draw).servers),
{
    if m.queue.len() > 0 {
        lemma_next_event_ready(m, bounds, rules);
        let scheduled = next_event(m.queue);
        let rest = m.queue.remove(scheduled);
        let next = step(m, rules, draw);
        let k = m.assignments.len() as int;
        match scheduled.event {
            Event::RequestComplete { server_id, .. } => {
                let freed = server_id as int;
                lemma_count_remove(m.queue, arrival_test(), scheduled);
                assert(same_servers(m.servers, next.servers));
                lemma_weights_kept(m.servers, next.servers);
                assert forall|other: ScheduledEvent| #[trigger]
                    next.queue.count(other) > 0 implies event_sound(
                    other,
                    next.servers.len() as int,
                    bounds,
                ) by {
                    lemma_rest_is_part(m.queue, scheduled, other);
                }
                assert forall|index: int| 0 <= index < next.servers.len() implies #[trigger] server_sound(
                    next,
                    index,
                    bounds,
                    rules,
                ) by {
                    assert(server_sound(m, index, bounds, rules));
                    lemma_count_remove(m.queue, completion_test(index), scheduled);
                }
                assert forall|k: int| 0 <= k < next.assignments.len() implies assignment_sound(
                    #[trigger] next.assignments[k],
                    next.servers,
                ) by {
                    assert(assignment_sound(m.assignments[k], m.servers));
                }
            },
            Event::RequestArrival(request) => {
                lemma_choice_in_range(m.strategy, m.servers, rules.stable, draw);
                let selection = m.strategy.choice(m.servers, rules.stable, draw);
                let chosen = selection.server_id as int;
                let server = m.servers[chosen];
                let assignment = assignment_of(
                    request,
                    server,
                    selection,
                    scheduled.time_ms,
                    rules.serialized,
                );
                let completion = completion_of(assignment);
                lemma_count_remove(m.queue, arrival_test(), scheduled);
                lemma_count_insert(rest, arrival_test(), completion);
                assert(same_servers(m.servers, next.servers));
                lemma_weights_kept(m.servers, next.servers);
                lemma_time_budget(k, bounds.requests, bounds.slowest_ms);
                assert forall|other: ScheduledEvent| #[trigger]
                    next.queue.count(other) > 0 implies event_sound(
                    other,
                    next.servers.len() as int,
                    bounds,
                ) by {
                    lemma_joined_is_part(rest, completion, other);
                    if other != completion {
                        lemma_rest_is_part(m.queue, scheduled, other);
                    }
                }
                assert forall|index: int| 0 <= index < next.servers.len() implies #[trigger] server_sound(
                    next,
                    index,
                    bounds,
                    rules,
                ) by {
                    assert(server_sound(m, index, bounds, rules));
                    lemma_count_remove(m.queue, completion_test(index), scheduled);
                    lemma_count_insert(rest, completion_test(index), completion);
                    assert(m.assignments.push(assignment).drop_last() =~= m.assignments);
                }
                assert forall|k: int| 0 <= k < next.assignments.len() implies assignment_sound(
                    #[trigger] next.assignments[k],
                    next.servers,
                ) by {
                    if k < m.assignments.len() {
                        assert(assignment_sound(m.assignments[k], m.servers));
                    } else {
                        assert(server_sound(m, chosen, bounds, rules));
                    }
                }
                match m.strategy {
                    StrategyModel::RoundRobin { next_idx } => {
                        lemma_cursor_step(next_idx, m.servers.len() as int);
                    },
                    StrategyModel::WeightedRoundRobin { cursor, cache } => {
                        lemma_totals_usable(cache, m.servers);
                        let totals = StrategyModel::totals_for(cache, m.servers);
                        lemma_cursor_step(cursor, totals.last() as int);
                    },
                    _ => {},
                }
            },
        }
    } else {
        assert(same_servers(m.servers, m.servers));
    }
}

proof fn lemma_rest_is_part(queue: Multiset<ScheduledEvent>, gone: ScheduledEvent, other: ScheduledEvent)
    ensures
        queue.remove(gone).count(other) > 0 ==> queue.count(other) > 0,
{
    broadcast use vstd::multiset::group_multiset_axioms;

}

proof fn lemma_joined_is_part(queue: Multiset<ScheduledEvent>, new: ScheduledEvent, other: ScheduledEvent)
    ensures
        queue.insert(new).count(other) > 0 ==> other == new || queue.count(other) > 0,
{
    broadcast use vstd::multiset::group_multiset_axioms;

    if other != new {
        assert(Multiset::singleton(new).count(other) == 0);
    }
}

/// Every state of a run that starts sound is sound, and its servers are
/// those of the start with other counters.
pub proof fn lemma_after_sound(start: Machine, bounds: Bounds, rules: Rules, draws: Seq<int>)
    requires
        sound(start, bounds, rules),
    ensures
        sound(after(start, rules, draws), bounds, rules),
        same_servers(start.servers, after(start, rules, draws).servers),
    decreases draws.len(),
{
    if draws.len() > 0 {
        lemma_after_sound(start, bounds, rules, draws.drop_last());
        lemma_step_sound(after(start, rules, draws.drop_last()), bounds, rules, draws.last());
    }
}

} // verus!
