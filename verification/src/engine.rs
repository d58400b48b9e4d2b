//! The simulation engine: the event loop that runs a configuration to the
//! end, and the contract that ties it to the state machine.

use vstd::prelude::*;
use vstd::multiset::Multiset;
use rand::rngs::StdRng;
use crate::algorithms::{
    build_strategy, config_weights, state_weights, weight_sum, Selection, SelectionContext,
    SelectionStrategy, Strategy, StrategyModel,
};
use crate::error::SimError;
use crate::events::{Event, Request, ScheduledEvent};
use crate::limits::{
    bounds_of, lemma_latest_bounds, lemma_slowest_bounds, run_fits, within_limits,
};
use crate::machine::{
    after, arrival_of, arrival_test, arrivals_in, arrivals_of, assignment_sound, completion_of,
    completion_test, completions_in, event_sound, lemma_after_sound, lemma_count_empty,
    lemma_count_insert, lemma_count_remove, lemma_least_is_unique, lemma_next_event_ready,
    draw_free, lemma_step_sound, next_event, same_servers, server_sound, sound, step, Machine,
    Rules,
};
use crate::metrics::{assigned_to, Metrics, Tally};
use crate::models::{RequestProfile, ServerConfig, SimConfig, TieBreakConfig};
use crate::queue::EventQueue;
use crate::report::{
    lemma_counts_add_up, lemma_routed_sum_is_length, lemma_summed_is_routed, reports, summary_of,
    well_reported,
};
use crate::requests::{build_requests, profile_arrivals, requests_at};
use crate::rng::seeded_stream;
use crate::state::{
    Assignment, EngineState, RunMetadata, ServerState, ServerSummary, SimulationResult,
};
use crate::validation::{config_error, lemma_valid_servers, server_error, validate_config};

verus! {

/// The servers as a run starts with them: the configured name, latency and
/// weight, and every counter at zero.
pub open spec fn fresh_server(server: ServerConfig, index: int) -> ServerState {
    ServerState {
        id: index as usize,
        name: server.name,
        base_latency_ms: server.base_latency_ms,
        weight: server.weight,
        active_connections: 0,
        pick_count: 0,
        in_flight: 0,
        next_available_ms: 0,
    }
}

/// All the servers as a run starts with them, in input order.
pub open spec fn fresh_servers(servers: Seq<ServerConfig>) -> Seq<ServerState> {
    Seq::new(servers.len(), |i: int| fresh_server(servers[i], i))
}

/// Sets up the per-server counters of a run.
pub fn init_server_state(servers: &[ServerConfig]) -> (states: Vec<ServerState>)
    ensures
        states@ == fresh_servers(servers@),
{
    let mut states: Vec<ServerState> = Vec::new();
    let mut id: usize = 0;
    while id < servers.len()
        invariant
            id <= servers.len(),
            states@ == fresh_servers(servers@.take(id as int)),
        decreases servers.len() - id,
    {
        let server = &servers[id];
        states.push(
            ServerState {
                id,
                name: server.name.clone(),
                base_latency_ms: server.base_latency_ms,
                weight: server.weight,
                active_connections: 0,
                pick_count: 0,
                in_flight: 0,
                next_available_ms: 0,
            },
        );
        proof {
            assert(states@ =~= fresh_servers(servers@.take(id as int + 1)));
        }
        id += 1;
    }
    proof {
        assert(servers@.take(id as int) =~= servers@);
    }
    states
}

/// What a run is refused for: the first violation of the configuration, or
/// a request profile without arrivals.
pub open spec fn run_error(config: SimConfig) -> Option<SimError> {
    match config_error(config) {
        Some(error) => Some(error),
        None => if profile_arrivals(config.requests).len() == 0 {
            Some(SimError::RequestsZero)
        } else {
            None
        },
    }
}

/// The requests of the run that a configuration asks for.
pub open spec fn requests_for(config: SimConfig) -> Seq<Request> {
    requests_at(profile_arrivals(config.requests))
}

/// The switches that a configuration sets.
pub open spec fn rules_of(config: SimConfig) -> Rules {
    Rules { stable: config.tie_break == TieBreakConfig::Stable, serialized: config.serialized_service }
}

/// The state in which a run starts: every request queued as an arrival, the
/// clock and all counters at zero, nothing routed yet.
pub open spec fn start_of(config: SimConfig, strategy: StrategyModel) -> Machine {
    Machine {
        queue: arrivals_of(requests_for(config), requests_for(config).len() as int),
        time_ms: 0,
        servers: fresh_servers(config.servers@),
        strategy,
        assignments: Seq::empty(),
    }
}

proof fn lemma_positive_weights(weights: Seq<u32>, upto: int)
    requires
        0 <= upto <= weights.len(),
        forall|i: int| 0 <= i < weights.len() ==> #[trigger] weights[i] > 0,
    ensures
        weight_sum(weights, upto) >= 0,
        upto > 0 ==> weight_sum(weights, upto) > 0,
    decreases upto,
{
    if upto > 0 {
        lemma_positive_weights(weights, upto - 1);
        assert(weights[upto - 1] > 0);
    }
}

/// What the queue of a run holds at the start: arrivals only, one per request.
proof fn lemma_start_queue(requests: Seq<Request>, upto: int)
    requires
        0 <= upto <= requests.len(),
    ensures
        arrivals_of(requests, upto).len() == upto,
        arrivals_in(arrivals_of(requests, upto)) == upto,
        forall|index: int| completions_in(arrivals_of(requests, upto), index) == 0,
        forall|scheduled: ScheduledEvent| #[trigger]
            arrivals_of(requests, upto).count(scheduled) > 0 ==> exists|j: int|
                0 <= j < upto && scheduled == arrival_of(#[trigger] requests[j]),
    decreases upto,
{
    broadcast use vstd::multiset::group_multiset_axioms;
    broadcast use vstd::multiset::group_multiset_properties;

    let queue = arrivals_of(requests, upto);
    if upto > 0 {
        lemma_start_queue(requests, upto - 1);
        let earlier = arrivals_of(requests, upto - 1);
        let new = arrival_of(requests[upto - 1]);
        lemma_count_insert(earlier, arrival_test(), new);
        assert forall|index: int| completions_in(queue, index) == 0 by {
            lemma_count_insert(earlier, completion_test(index), new);
            assert(completions_in(earlier, index) == 0);
        }
        assert forall|scheduled: ScheduledEvent| #[trigger] queue.count(scheduled) > 0 implies exists|
            j: int,
        |
            0 <= j < upto && scheduled == arrival_of(#[trigger] requests[j]) by {
            if scheduled == new {
                assert(scheduled == arrival_of(requests[upto - 1]));
            } else {
                assert(earlier.count(scheduled) > 0);
                let j = choose|j: int|
                    0 <= j < upto - 1 && scheduled == arrival_of(#[trigger] requests[j]);
                assert(scheduled == arrival_of(requests[j]));
            }
        }
    } else {
        lemma_count_empty(queue, arrival_test());
        assert forall|index: int| completions_in(queue, index) == 0 by {
            lemma_count_empty(queue, completion_test(index));
        }
    }
}

/// A valid configuration within the machine limits starts a run in a sound state.
pub proof fn lemma_start_sound(config: SimConfig, strategy: StrategyModel)
    requires
        run_error(config) is None,
        run_fits(config, strategy),
        config.servers@.len() <= usize::MAX,
        strategy matches StrategyModel::RoundRobin { next_idx } ==> next_idx >= 0,
        strategy matches StrategyModel::WeightedRoundRobin { cursor, cache } ==> cursor >= 0
            && StrategyModel::cache_usable(cache),
    ensures
        sound(start_of(config, strategy), bounds_of(config), rules_of(config)),
{
    let start = start_of(config, strategy);
    let bounds = bounds_of(config);
    let rules = rules_of(config);
    let servers = config.servers@;
    let arrivals = profile_arrivals(config.requests);
    let requests = requests_for(config);
    lemma_valid_servers(servers, servers.len() as int);
    lemma_slowest_bounds(servers, servers.len() as int);
    lemma_latest_bounds(arrivals, arrivals.len() as int);
    lemma_start_queue(requests, requests.len() as int);
    assert forall|scheduled: ScheduledEvent| #[trigger] start.queue.count(scheduled) > 0 implies event_sound(
        scheduled,
        start.servers.len() as int,
        bounds,
    ) by {
        let j = choose|j: int|
            0 <= j < requests.len() && scheduled == arrival_of(#[trigger] requests[j]);
        assert(arrivals[j] <= bounds.last_arrival_ms);
    }
    assert forall|index: int| 0 <= index < start.servers.len() implies #[trigger] server_sound(
        start,
        index,
        bounds,
        rules,
    ) by {
        assert(servers[index].base_latency_ms <= bounds.slowest_ms);
        assert(0 * bounds.slowest_ms == 0);
    }
    assert(state_weights(start.servers) =~= config_weights(servers));
    assert forall|i: int| 0 <= i < servers.len() implies #[trigger] config_weights(servers)[i] > 0 by {
        assert(server_error(servers, i) is None);
    }
    lemma_positive_weights(config_weights(servers), servers.len() as int);
}

/// The state that a run of a configuration is in after one step for each
/// of the draws.
pub open spec fn run_end(config: SimConfig, strategy: StrategyModel, draws: Seq<int>) -> Machine {
    after(start_of(config, strategy), rules_of(config), draws)
}

/// With these draws the run of a configuration comes to its end, and
/// `result` reports it: the queue is empty, the run was sound from start to
/// end, every request was routed, and the result says so.
pub open spec fn run_ends(
    config: SimConfig,
    strategy: StrategyModel,
    draws: Seq<int>,
    result: SimulationResult,
) -> bool {
    let end = run_end(config, strategy, draws);
    &&& end.queue.len() == 0
    &&& sound(start_of(config, strategy), bounds_of(config), rules_of(config))
    &&& sound(end, bounds_of(config), rules_of(config))
    &&& same_servers(fresh_servers(config.servers@), end.servers)
    &&& end.assignments.len() == requests_for(config).len()
    &&& reports(result, config, end)
}

/// The totals of a run count every generated request exactly once, stand in
/// input order under the servers' names, and the history is complete and
/// in order.
pub proof fn lemma_run_is_well_reported(
    config: SimConfig,
    strategy: StrategyModel,
    draws: Seq<int>,
    result: SimulationResult,
)
    requires
        run_ends(config, strategy, draws, result),
    ensures
        well_reported(config, result),
{
    let end = run_end(config, strategy, draws);
    let bounds = bounds_of(config);
    let rules = rules_of(config);
    assert forall|i: int| 0 <= i < end.servers.len() implies 0 <= #[trigger] assigned_to(
        end.assignments,
        i,
    ) <= u32::MAX by {
        assert(server_sound(end, i, bounds, rules));
    }
    lemma_summed_is_routed(result.totals@, end, result.totals@.len() as int);
    assert forall|k: int| 0 <= k < end.assignments.len() implies (#[trigger] end.assignments[k]).server_id
        < end.servers.len() by {
        assert(assignment_sound(end.assignments[k], end.servers));
    }
    lemma_routed_sum_is_length(end.assignments, end.servers.len() as int);
    assert forall|i: int| 0 <= i < result.totals@.len() implies (#[trigger] result.totals@[i]).name
        == config.servers@[i].name by {
        assert(end.servers[i].name == fresh_servers(config.servers@)[i].name);
    }
    assert forall|k: int| 0 <= k < result.assignments@.len() implies {
        let assignment = #[trigger] result.assignments@[k];
        &&& assignment.timely()
        &&& assignment.server_id < config.servers@.len()
        &&& assignment.server_name == config.servers@[assignment.server_id as int].name
    } by {
        let assignment = end.assignments[k];
        assert(assignment_sound(assignment, end.servers));
        assert(end.servers[assignment.server_id as int].name == fresh_servers(
            config.servers@,
        )[assignment.server_id as int].name);
    }
}

/// A copy of a history.
fn copy_assignments(history: &Vec<Assignment>) -> (copy: Vec<Assignment>)
    ensures
        copy@ == history@,
{
    let mut copy: Vec<Assignment> = Vec::new();
    let mut k: usize = 0;
    while k < history.len()
        invariant
            k <= history.len(),
            copy@ == history@.take(k as int),
        decreases history.len() - k,
    {
        let entry = &history[k];
        copy.push(
            Assignment {
                request_id: entry.request_id,
                server_id: entry.server_id,
                server_name: entry.server_name.clone(),
                arrival_time_ms: entry.arrival_time_ms,
                started_at: entry.started_at,
                completed_at: entry.completed_at,
                score: entry.score,
            },
        );
        proof {
            assert(copy@ =~= history@.take(k as int + 1));
        }
        k += 1;
    }
    proof {
        assert(history@.take(k as int) =~= history@);
    }
    copy
}

/// Queues one arrival for each request.
fn queue_arrivals(requests: &Vec<Request>) -> (events: EventQueue)
    ensures
        events@ == arrivals_of(requests@, requests@.len() as int),
{
    let mut events = EventQueue::new();
    let mut loaded: usize = 0;
    while loaded < requests.len()
        invariant
            loaded <= requests.len(),
            events@ == arrivals_of(requests@, loaded as int),
        decreases requests.len() - loaded,
    {
        let request: Request = requests[loaded];
        events.push(ScheduledEvent::new(request.arrival_time_ms, Event::RequestArrival(request)));
        loaded += 1;
    }
    events
}

/// Makes the report of a run that has ended in state `end`.
fn report(
    config: &SimConfig,
    state: &EngineState,
    tally: &Tally,
    Ghost(end): Ghost<Machine>,
) -> (result: SimulationResult)
    requires
        sound(end, bounds_of(*config), rules_of(*config)),
        end.servers == state.servers@,
        end.assignments == tally.history(),
        tally.consistent(),
        tally.servers() == state.servers@.len(),
        state.assignments@ == if config.store_assignments {
            tally.history()
        } else {
            Seq::<Assignment>::empty()
        },
    ensures
        reports(result, *config, end),
        result.assignments@ == state.assignments@,
{
    let ghost bounds = bounds_of(*config);
    let ghost rules = rules_of(*config);
    let server_count: usize = state.servers.len();
    let mut totals: Vec<ServerSummary> = Vec::new();
    let mut counts: Vec<u32> = Vec::new();
    let mut index: usize = 0;
    while index < server_count
        invariant
            index <= server_count == state.servers@.len(),
            end.servers == state.servers@,
            end.assignments == tally.history(),
            sound(end, bounds, rules),
            tally.consistent(),
            tally.servers() == server_count,
            totals@ == Seq::new(index as nat, |i: int| summary_of(end.servers[i], end.assignments, i)),
            counts@ == Seq::new(index as nat, |i: int| end.servers[i].pick_count),
        decreases server_count - index,
    {
        proof {
            assert(server_sound(end, index as int, bounds, rules));
        }
        let count: u32 = state.servers[index].pick_count;
        let average: u64 = tally.average_response(index, count);
        totals.push(
            ServerSummary {
                name: state.servers[index].name.clone(),
                requests: count,
                avg_response_ms: average,
            },
        );
        counts.push(count);
        proof {
            assert(totals@ =~= Seq::new(
                (index + 1) as nat,
                |i: int| summary_of(end.servers[i], end.assignments, i),
            ));
            assert(counts@ =~= Seq::new((index + 1) as nat, |i: int| end.servers[i].pick_count));
        }
        index += 1;
    }
    proof {
        lemma_counts_add_up(end, bounds, rules, counts@);
        assert forall|i: int| 0 <= i < counts@.len() implies counts@[i] == assigned_to(
            tally.history(),
            i,
        ) by {
            assert(server_sound(end, i, bounds, rules));
        }
    }
    let metrics: Metrics = tally.metrics(counts.as_slice());
    let metadata = RunMetadata {
        algo: config.algo.label(),
        tie_break: config.tie_break.label_with_seed(config.seed),
        duration_ms: tally.duration_ms(),
    };
    let assignments: Vec<Assignment> = copy_assignments(&state.assignments);
    SimulationResult { assignments, totals, metadata, metrics }
}

/// Runs one simulation on the given state, strategy and tie-break stream.
fn simulate(
    config: &SimConfig,
    state: &mut EngineState,
    strategy: &mut Strategy,
    rng: &mut StdRng,
) -> (outcome: Result<SimulationResult, SimError>)
    requires
        run_error(*config) is None ==> run_fits(*config, old(strategy)@),
    ensures
        match outcome {
            Err(error) => run_error(*config) == Some(error),
            Ok(result) => {
                &&& run_error(*config) is None
                &&& well_reported(*config, result)
                &&& exists|draws: Seq<int>|
                    {
                        let end = run_end(*config, old(strategy)@, draws);
                        &&& #[trigger] run_ends(*config, old(strategy)@, draws, result)
                        &&& final(state).servers@ == end.servers
                        &&& final(state).time_ms == end.time_ms
                        &&& final(strategy)@ == end.strategy
                    }
                &&& final(state).assignments@ == result.assignments@
            },
        },
        draw_free(old(strategy)@, rules_of(*config)) ==> *final(rng) == *old(rng),
{
    match validate_config(config) {
        Err(error) => {
            return Err(error);
        },
        Ok(_) => {},
    }
    let requests: Vec<Request> = match build_requests(&config.requests) {
        Err(error) => {
            return Err(error);
        },
        Ok(requests) => requests,
    };
    strategy.confirm_usable();
    let ghost rules = rules_of(*config);
    let ghost bounds = bounds_of(*config);
    let ghost start = start_of(*config, strategy@);
    let configured: usize = config.servers.len();
    proof {
        assert(config.servers@.len() == configured);
        lemma_start_sound(*config, strategy@);
    }
    let stable: bool = match config.tie_break {
        TieBreakConfig::Stable => true,
        TieBreakConfig::Seeded => false,
    };
    let serialized: bool = config.serialized_service;
    let store: bool = config.store_assignments;

    state.servers = init_server_state(config.servers.as_slice());
    state.assignments = Vec::new();
    state.time_ms = 0;
    let server_count: usize = state.servers.len();

    let mut events: EventQueue = queue_arrivals(&requests);

    let mut tally = Tally::new(server_count);
    let ghost mut draws: Seq<int> = Seq::empty();
    loop
        invariant
            rules == rules_of(*config),
            bounds == bounds_of(*config),
            rules.stable == stable,
            rules.serialized == serialized,
            store == config.store_assignments,
            server_count == state.servers@.len(),
            sound(after(start, rules, draws), bounds, rules),
            after(start, rules, draws).queue == events@,
            after(start, rules, draws).time_ms == state.time_ms,
            after(start, rules, draws).servers == state.servers@,
            after(start, rules, draws).strategy == strategy@,
            after(start, rules, draws).assignments == tally.history(),
            tally.consistent(),
            tally.servers() == server_count,
            state.assignments@ == if store {
                tally.history()
            } else {
                Seq::<Assignment>::empty()
            },
            strategy@.breaks_ties() == old(strategy)@.breaks_ties(),
            draw_free(old(strategy)@, rules) ==> *rng == *old(rng),
        ensures
            events@.len() == 0,
        decreases events@.len() + arrivals_in(events@),
    {
        let ghost now = after(start, rules, draws);
        let popped: Option<ScheduledEvent> = events.pop();
        let scheduled: ScheduledEvent = match popped {
            None => {
                break;
            },
            Some(scheduled) => scheduled,
        };
        proof {
            lemma_next_event_ready(now, bounds, rules);
            lemma_least_is_unique(now.queue, scheduled, next_event(now.queue));
            lemma_one_less(now.queue, scheduled);
            lemma_count_remove(now.queue, arrival_test(), scheduled);
        }
        state.time_ms = scheduled.time_ms;
        match scheduled.event {
            Event::RequestComplete { server_id, .. } => {
                let open: u32 = state.servers[server_id].active_connections;
                let flying: u32 = state.servers[server_id].in_flight;
                state.servers[server_id].active_connections = open - 1;
                state.servers[server_id].in_flight = flying - 1;
                proof {
                    lemma_step_sound(now, bounds, rules, 0);
                    let next = step(now, rules, 0);
                    assert(state.servers@ =~= next.servers);
                    let earlier = draws;
                    draws = earlier.push(0);
                    assert(draws.drop_last() =~= earlier);
                }
            },
            Event::RequestArrival(request) => {
                // The stream is lent only where a tie can be met and is to be drawn.
                let selection: Selection = if stable || !strategy.breaks_ties() {
                    let mut ctx = SelectionContext {
                        servers: state.servers.as_slice(),
                        time_ms: state.time_ms,
                        rng: None,
                    };
                    strategy.select(&mut ctx)
                } else {
                    let mut ctx = SelectionContext {
                        servers: state.servers.as_slice(),
                        time_ms: state.time_ms,
                        rng: Some(&mut *rng),
                    };
                    strategy.select(&mut ctx)
                };
                let ghost draw: int = choose|draw: int|
                    selection == #[trigger] now.strategy.choice(now.servers, stable, draw);
                proof {
                    let lent = stable || !now.strategy.breaks_ties();
                    let made = choose|made: int|
                        selection == #[trigger] now.strategy.choice(now.servers, lent, made);
                    assert(selection == now.strategy.choice(now.servers, stable, made));
                }
                let chosen: usize = selection.server_id;
                let clock: u64 = state.time_ms;
                let latency: u64 = state.servers[chosen].base_latency_ms;
                let available: u64 = state.servers[chosen].next_available_ms;
                let started_at: u64 = if serialized && available > clock {
                    available
                } else {
                    clock
                };
                let completed_at: u64 = started_at + latency;
                let open: u32 = state.servers[chosen].active_connections;
                let picks: u32 = state.servers[chosen].pick_count;
                let flying: u32 = state.servers[chosen].in_flight;
                state.servers[chosen].active_connections = open + 1;
                state.servers[chosen].pick_count = picks + 1;
                state.servers[chosen].in_flight = flying + 1;
                if serialized {
                    state.servers[chosen].next_available_ms = completed_at;
                }
                events.push(
                    ScheduledEvent::new(
                        completed_at,
                        Event::RequestComplete { server_id: chosen, request_id: request.id },
                    ),
                );
                let assignment = Assignment {
                    request_id: request.id,
                    server_id: chosen,
                    server_name: state.servers[chosen].name.clone(),
                    arrival_time_ms: request.arrival_time_ms,
                    started_at,
                    completed_at,
                    score: selection.score,
                };
                tally.record(&assignment);
                if store {
                    state.assignments.push(assignment);
                }
                proof {
                    lemma_step_sound(now, bounds, rules, draw);
                    let next = step(now, rules, draw);
                    assert(state.servers@ =~= next.servers);
                    lemma_count_insert(
                        now.queue.remove(scheduled),
                        arrival_test(),
                        completion_of(assignment),
                    );
                    let earlier = draws;
                    draws = earlier.push(draw);
                    assert(draws.drop_last() =~= earlier);
                }
            },
        }
    }
    let ghost end = after(start, rules, draws);
    proof {
        lemma_count_empty(end.queue, arrival_test());
        lemma_after_sound(start, bounds, rules, draws);
    }
    let result: SimulationResult = report(config, state, &tally, Ghost(end));
    proof {
        assert(run_ends(*config, old(strategy)@, draws, result));
        lemma_run_is_well_reported(*config, old(strategy)@, draws, result);
    }
    Ok(result)
}

/// One configured run: the configuration, the state that the run works
/// on, the selection strategy and the tie-break stream.
pub struct SimulationEngine {
    pub config: SimConfig,
    pub state: EngineState,
    pub strategy: Strategy,
    pub rng: StdRng,
}

proof fn lemma_one_less(queue: Multiset<ScheduledEvent>, gone: ScheduledEvent)
    requires
        queue.count(gone) > 0,
    ensures
        queue.remove(gone).len() == queue.len() - 1,
{
    broadcast use vstd::multiset::group_multiset_axioms;

    assert(Multiset::singleton(gone).subset_of(queue)) by {
        assert forall|v: ScheduledEvent| Multiset::singleton(gone).count(v) <= queue.count(v) by {
            if v != gone {
                assert(Multiset::singleton(gone).count(v) == 0);
            }
        }
    }
}

impl SimulationEngine {
    /// An engine for one run. The tie-break stream is seeded with the
    /// configured seed under the seeded rule, and with zero under the stable
    /// rule, which never consults it.
    pub fn new(config: SimConfig, strategy: Strategy) -> (engine: Self)
        ensures
            engine.config == config,
            engine.strategy == strategy,
            engine.state.time_ms == 0,
            engine.state.servers@.len() == 0,
            engine.state.assignments@.len() == 0,
    {
        let seed: u64 = match config.tie_break {
            TieBreakConfig::Seeded => match config.seed {
                Some(value) => value,
                None => 0,
            },
            TieBreakConfig::Stable => 0,
        };
        let rng = seeded_stream(seed);
        let state = EngineState { time_ms: 0, servers: Vec::new(), assignments: Vec::new() };
        SimulationEngine { config, state, strategy, rng }
    }

    /// Runs the simulation to the end.
    ///
    /// An invalid configuration is refused with its first violation. A valid
    /// one is run from the start state, event by event, until the queue is
    /// empty: the result reports the state reached, for some sequence of
    /// tie-break draws, one per step. Draws matter only where the strategy
    /// meets a real tie under the seeded rule.
    pub fn run(&mut self) -> (outcome: Result<SimulationResult, SimError>)
        requires
            run_error(old(self).config) is None ==> run_fits(
                old(self).config,
                old(self).strategy@,
            ),
        ensures
            final(self).config == old(self).config,
            match outcome {
                Err(error) => run_error(old(self).config) == Some(error),
                Ok(result) => {
                    &&& run_error(old(self).config) is None
                    &&& well_reported(old(self).config, result)
                    &&& exists|draws: Seq<int>|
                        {
                            let end = run_end(old(self).config, old(self).strategy@, draws);
                            &&& #[trigger] run_ends(
                                old(self).config,
                                old(self).strategy@,
                                draws,
                                result,
                            )
                            &&& final(self).state.servers@ == end.servers
                            &&& final(self).state.time_ms == end.time_ms
                            &&& final(self).strategy@ == end.strategy
                        }
                    &&& final(self).state.assignments@ == result.assignments@
                },
            },
            draw_free(old(self).strategy@, rules_of(old(self).config)) ==> final(self).rng == old(
                self,
            ).rng,
    {
        simulate(&self.config, &mut self.state, &mut self.strategy, &mut self.rng)
    }
}

/// Runs the simulation that a configuration asks for, with a fresh strategy
/// for the configured policy.
///
/// An invalid configuration is refused with its first violation. A valid
/// one is run from the start state, event by event, until the queue is
/// empty: the result reports the state reached, for some sequence of
/// tie-break draws, one per step. Draws matter only where the strategy meets
/// a real tie under the seeded rule.
pub fn run_simulation(config: &SimConfig) -> (outcome: Result<SimulationResult, SimError>)
    requires
        run_error(*config) is None ==> run_fits(*config, StrategyModel::fresh(config.algo)),
    ensures
        match outcome {
            Err(error) => run_error(*config) == Some(error),
            Ok(result) => {
                &&& run_error(*config) is None
                &&& well_reported(*config, result)
                &&& exists|draws: Seq<int>|
                    #[trigger] run_ends(
                        *config,
                        StrategyModel::fresh(config.algo),
                        draws,
                        result,
                    )
            },
        },
{
    let mut strategy = build_strategy(config.algo);
    let seed: u64 = match config.tie_break {
        TieBreakConfig::Seeded => match config.seed {
            Some(value) => value,
            None => 0,
        },
        TieBreakConfig::Stable => 0,
    };
    let mut rng = seeded_stream(seed);
    let mut state = EngineState { time_ms: 0, servers: Vec::new(), assignments: Vec::new() };
    simulate(config, &mut state, &mut strategy, &mut rng)
}

/// Runs the simulation if it stays within the machine's integers.
///
/// The answer is `None` for a valid configuration whose run would not fit:
/// too many requests for the 32-bit counters, or times or scores beyond 64
/// bits. Any other configuration is handled as `run_simulation` does.
pub fn try_run_simulation(config: &SimConfig) -> (outcome: Option<
    Result<SimulationResult, SimError>,
>)
    ensures
        outcome is None <==> run_error(*config) is None && !run_fits(
            *config,
            StrategyModel::fresh(config.algo),
        ),
        match outcome {
            None => true,
            Some(Err(error)) => run_error(*config) == Some(error),
            Some(Ok(result)) => {
                &&& run_error(*config) is None
                &&& well_reported(*config, result)
                &&& exists|draws: Seq<int>|
                    #[trigger] run_ends(
                        *config,
                        StrategyModel::fresh(config.algo),
                        draws,
                        result,
                    )
            },
        },
{
    if within_limits(config) {
        return Some(run_simulation(config));
    }
    match validate_config(config) {
        Err(error) => {
            return Some(Err(error));
        },
        Ok(_) => {},
    }
    let empty: bool = match &config.requests {
        RequestProfile::FixedCount(count) => *count == 0,
        RequestProfile::Burst { count, at_ms } => *count == 0,
        RequestProfile::Poisson { duration_ms, arrivals_ms } => arrivals_ms.len() == 0,
    };
    if empty {
        Some(Err(SimError::RequestsZero))
    } else {
        None
    }
}

} // verus!
