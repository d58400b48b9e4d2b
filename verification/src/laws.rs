//! What holds of every run: statements about the engine as a whole, each
//! proved from the state machine and the contracts of the functions.

use vstd::prelude::*;
use vstd::multiset::Multiset;
use crate::algorithms::StrategyModel;
use crate::engine::{requests_for, rules_of, run_end, run_ends, run_error, start_of};
use crate::error::SimError;
use crate::events::{lemma_before_is_strict_total_order, Event, Request, ScheduledEvent};
use crate::limits::bounds_of;
use crate::machine::{
    after, arrival_of, completion_test, draw_free, event_sound, lemma_after_sound,
    lemma_choice_in_range, lemma_count_empty, lemma_next_event_ready, next_event, server_sound,
    sound, step, Bounds, Machine, Rules,
};
use crate::metrics::{assigned_to, percentile_of, sorted_samples};
use crate::models::{AlgoConfig, SimConfig};
use crate::requests::profile_arrivals;
use crate::state::{Assignment, SimulationResult};

verus! {

proof fn lemma_step_ignores_draw(m: Machine, rules: Rules, one: int, other: int)
    requires
        draw_free(m.strategy, rules),
    ensures
        step(m, rules, one) == step(m, rules, other),
        step(m, rules, one).strategy.breaks_ties() == m.strategy.breaks_ties(),
{
}

proof fn lemma_after_by_length(start: Machine, rules: Rules, one: Seq<int>, other: Seq<int>)
    requires
        draw_free(start.strategy, rules),
        one.len() == other.len(),
    ensures
        after(start, rules, one) == after(start, rules, other),
        after(start, rules, one).strategy.breaks_ties() == start.strategy.breaks_ties(),
    decreases one.len(),
{
    if one.len() > 0 {
        lemma_after_by_length(start, rules, one.drop_last(), other.drop_last());
        lemma_step_ignores_draw(
            after(start, rules, one.drop_last()),
            rules,
            one.last(),
            other.last(),
        );
    }
}

proof fn lemma_idle_when_empty(start: Machine, rules: Rules, draws: Seq<int>, upto: int)
    requires
        0 <= upto <= draws.len(),
        after(start, rules, draws.take(upto)).queue.len() == 0,
    ensures
        after(start, rules, draws) == after(start, rules, draws.take(upto)),
    decreases draws.len(),
{
    if upto < draws.len() {
        assert(draws.drop_last().take(upto) =~= draws.take(upto));
        lemma_idle_when_empty(start, rules, draws.drop_last(), upto);
    } else {
        assert(draws.take(upto) =~= draws);
    }
}

/// Once the queue is empty the run is over: however the tie-break draws
/// continue, runs that never depend on a draw end in the same state.
pub proof fn lemma_same_end(start: Machine, rules: Rules, one: Seq<int>, other: Seq<int>)
    requires
        draw_free(start.strategy, rules),
        after(start, rules, one).queue.len() == 0,
        after(start, rules, other).queue.len() == 0,
    ensures
        after(start, rules, one) == after(start, rules, other),
{
    if one.len() <= other.len() {
        lemma_after_by_length(start, rules, one, other.take(one.len() as int));
        lemma_idle_when_empty(start, rules, other, one.len() as int);
    } else {
        lemma_after_by_length(start, rules, other, one.take(other.len() as int));
        lemma_idle_when_empty(start, rules, one, other.len() as int);
    }
}

/// Two results report the same: the same history, the same totals, the same
/// metadata and the same metrics.
pub open spec fn same_report(one: SimulationResult, other: SimulationResult) -> bool {
    &&& one.assignments@ == other.assignments@
    &&& one.totals@ == other.totals@
    &&& one.metadata.algo@ == other.metadata.algo@
    &&& one.metadata.tie_break@ == other.metadata.tie_break@
    &&& one.metadata.duration_ms == other.metadata.duration_ms
    &&& one.metrics.p95_response_ms == other.metrics.p95_response_ms
    &&& one.metrics.p99_response_ms == other.metrics.p99_response_ms
    &&& one.metrics.fairness == other.metrics.fairness
    &&& one.metrics.utilization@ == other.metrics.utilization@
    &&& one.metrics.throughput_rps == other.metrics.throughput_rps
    &&& one.metrics.avg_wait_ms == other.metrics.avg_wait_ms
}

/// Reproducibility. Two runs of one configuration, from the same strategy
/// state, report the same whenever they took the same tie-break draws; and
/// under the stable tie-break, or with a policy that has no ties, they
/// report the same whatever the draws were.
pub proof fn lemma_run_is_reproducible(
    config: SimConfig,
    strategy: StrategyModel,
    one_draws: Seq<int>,
    one: SimulationResult,
    other_draws: Seq<int>,
    other: SimulationResult,
)
    requires
        run_ends(config, strategy, one_draws, one),
        run_ends(config, strategy, other_draws, other),
        one_draws == other_draws || draw_free(strategy, rules_of(config)),
    ensures
        same_report(one, other),
{
    let start = start_of(config, strategy);
    let rules = rules_of(config);
    if one_draws != other_draws {
        lemma_same_end(start, rules, one_draws, other_draws);
    }
    assert(one.metrics.utilization@ =~= other.metrics.utilization@);
    assert(one.metrics.fairness.parts() == other.metrics.fairness.parts());
    assert(one.metrics.throughput_rps.parts() == other.metrics.throughput_rps.parts());
    assert(one.metrics.avg_wait_ms.parts() == other.metrics.avg_wait_ms.parts());
}

/// The request that an assignment routed.
pub open spec fn request_of(assignment: Assignment) -> Request {
    Request { id: assignment.request_id, arrival_time_ms: assignment.arrival_time_ms }
}

/// The requests of a history were routed in the order of their arrival:
/// earlier arrivals first, and of those that arrived together the lower id
/// first.
pub open spec fn in_arrival_order(history: Seq<Assignment>) -> bool {
    forall|j: int, k: int|
        0 <= j < k < history.len() ==> arrival_of(request_of(#[trigger] history[j])).not_after(
            arrival_of(request_of(#[trigger] history[k])),
        )
}

/// No arrival that still waits is due before a request that was routed.
spec fn ahead_of_queue(m: Machine) -> bool {
    forall|j: int, waiting: ScheduledEvent|
        0 <= j < m.assignments.len() && #[trigger] m.queue.count(waiting) > 0
            && waiting.event is RequestArrival ==> arrival_of(
            request_of(#[trigger] m.assignments[j]),
        ).not_after(waiting)
}

proof fn lemma_order_step(m: Machine, bounds: Bounds, rules: Rules, draw: int)
    requires
        sound(m, bounds, rules),
        in_arrival_order(m.assignments),
        ahead_of_queue(m),
    ensures
        in_arrival_order(step(m, rules, draw).assignments),
        ahead_of_queue(step(m, rules, draw)),
{
    broadcast use vstd::multiset::group_multiset_axioms;

    let next = step(m, rules, draw);
    if m.queue.len() > 0 {
        lemma_next_event_ready(m, bounds, rules);
        let scheduled = next_event(m.queue);
        let rest = m.queue.remove(scheduled);
        assert(m.queue.count(scheduled) > 0);
        match scheduled.event {
            Event::RequestComplete { .. } => {
                assert forall|j: int, waiting: ScheduledEvent|
                    0 <= j < next.assignments.len() && #[trigger] next.queue.count(waiting) > 0
                        && waiting.event is RequestArrival implies arrival_of(
                    request_of(#[trigger] next.assignments[j]),
                ).not_after(waiting) by {
                    assert(m.queue.count(waiting) > 0);
                }
            },
            Event::RequestArrival(request) => {
                let done = m.assignments.len() as int;
                assert(event_sound(scheduled, m.servers.len() as int, bounds));
                assert(scheduled == arrival_of(request));
                assert(request_of(next.assignments[done]) == request);
                assert forall|j: int, k: int| 0 <= j < k < next.assignments.len() implies arrival_of(
                    request_of(#[trigger] next.assignments[j]),
                ).not_after(arrival_of(request_of(#[trigger] next.assignments[k]))) by {
                    if k < done {
                        assert(next.assignments[j] == m.assignments[j]);
                        assert(next.assignments[k] == m.assignments[k]);
                    } else {
                        assert(next.assignments[j] == m.assignments[j]);
                    }
                }
                assert forall|j: int, waiting: ScheduledEvent|
                    0 <= j < next.assignments.len() && #[trigger] next.queue.count(waiting) > 0
                        && waiting.event is RequestArrival implies arrival_of(
                    request_of(#[trigger] next.assignments[j]),
                ).not_after(waiting) by {
                    assert(rest.count(waiting) > 0) by {
                        if rest.count(waiting) == 0 {
                            assert(Multiset::singleton(waiting).count(waiting) == 1);
                        }
                    }
                    assert(m.queue.count(waiting) > 0);
                    assert(!waiting.before(scheduled));
                    lemma_before_is_strict_total_order(scheduled, waiting, scheduled);
                    if j < done {
                        assert(next.assignments[j] == m.assignments[j]);
                        let earlier = arrival_of(request_of(m.assignments[j]));
                        assert(earlier.not_after(scheduled));
                        lemma_before_is_strict_total_order(earlier, scheduled, waiting);
                    }
                }
            },
        }
    }
}

proof fn lemma_order_goes_on(start: Machine, bounds: Bounds, rules: Rules, draws: Seq<int>)
    requires
        sound(start, bounds, rules),
        in_arrival_order(start.assignments),
        ahead_of_queue(start),
    ensures
        in_arrival_order(after(start, rules, draws).assignments),
        ahead_of_queue(after(start, rules, draws)),
    decreases draws.len(),
{
    if draws.len() > 0 {
        lemma_order_goes_on(start, bounds, rules, draws.drop_last());
        lemma_after_sound(start, bounds, rules, draws.drop_last());
        lemma_order_step(after(start, rules, draws.drop_last()), bounds, rules, draws.last());
    }
}

/// Order. A run routes the requests in the order of their arrival, and
/// those that arrive in the same millisecond in the order of their ids.
pub proof fn lemma_requests_are_routed_in_order(
    config: SimConfig,
    strategy: StrategyModel,
    draws: Seq<int>,
    result: SimulationResult,
)
    requires
        run_ends(config, strategy, draws, result),
    ensures
        in_arrival_order(run_end(config, strategy, draws).assignments),
        config.store_assignments ==> in_arrival_order(result.assignments@),
{
    lemma_order_goes_on(start_of(config, strategy), bounds_of(config), rules_of(config), draws);
}

/// Connections. When a run has ended, every connection that was opened has
/// been closed again: no server has a request in flight, and each server
/// was picked as often as its summary says.
pub proof fn lemma_every_connection_closes(
    config: SimConfig,
    strategy: StrategyModel,
    draws: Seq<int>,
    result: SimulationResult,
)
    requires
        run_ends(config, strategy, draws, result),
    ensures
        forall|i: int|
            0 <= i < run_end(config, strategy, draws).servers.len() ==> {
                let server = #[trigger] run_end(config, strategy, draws).servers[i];
                &&& server.active_connections == 0
                &&& server.in_flight == 0
                &&& server.pick_count == result.totals@[i].requests
            },
{
    let end = run_end(config, strategy, draws);
    assert forall|i: int| 0 <= i < end.servers.len() implies {
        let server = #[trigger] end.servers[i];
        &&& server.active_connections == 0
        &&& server.in_flight == 0
        &&& server.pick_count == result.totals@[i].requests
    } by {
        assert(server_sound(end, i, bounds_of(config), rules_of(config)));
        lemma_count_empty(end.queue, completion_test(i));
    }
}

/// A configuration without servers, or with a profile that asks for no
/// requests, is refused with a configuration error.
pub proof fn lemma_empty_runs_are_refused(config: SimConfig)
    requires
        config.servers@.len() == 0 || profile_arrivals(config.requests).len() == 0,
    ensures
        run_error(config) is Some,
        config.servers@.len() == 0 ==> run_error(config) == Some(SimError::EmptyServers),
{
}

/// A single sample is every percentile of itself.
pub proof fn lemma_single_sample_percentile(sample: u64, percent: int)
    ensures
        percentile_of(seq![sample], percent) == Some(sample),
{
    broadcast use vstd::seq_lib::group_to_multiset_ensures;

    let samples = seq![sample];
    crate::metrics::lemma_sorted_samples(samples);
    let sorted = sorted_samples(samples);
    assert(sorted.len() == 1);
    assert(sorted.to_multiset().count(sorted[0]) > 0) by {
        assert(sorted.contains(sorted[0]));
    }
    assert(samples.to_multiset().count(sorted[0]) > 0);
    assert(samples.contains(sorted[0]));
}

/// The history of a round robin among `servers` servers that started at
/// index 0: request `j` in processing order went to server `j mod servers`.
pub open spec fn cyclic(history: Seq<Assignment>, servers: int) -> bool {
    forall|j: int| 0 <= j < history.len() ==> (#[trigger] history[j]).server_id == j % servers
}

/// How often a cycle of `servers` servers has come to server `index`
/// after `requests` requests: the whole cycles, and once more if the
/// running cycle has passed the server.
pub open spec fn cyclic_share(requests: int, servers: int, index: int) -> int {
    requests / servers + if index < requests % servers {
        1int
    } else {
        0int
    }
}

proof fn lemma_cycle_step(count: int, servers: int)
    requires
        0 <= count,
        0 < servers,
    ensures
        0 <= count % servers < servers,
        count % servers + 1 == servers ==> (count + 1) / servers == count / servers + 1 && (count
            + 1) % servers == 0,
        count % servers + 1 < servers ==> (count + 1) / servers == count / servers && (count + 1)
            % servers == count % servers + 1,
{
    vstd::arithmetic::div_mod::lemma_fundamental_div_mod(count, servers);
    vstd::arithmetic::div_mod::lemma_mod_bound(count, servers);
    let q = count / servers;
    let r = count % servers;
    if r + 1 == servers {
        assert(count + 1 == (q + 1) * servers + 0) by (nonlinear_arith)
            requires
                count == servers * q + r,
                r + 1 == servers,
        ;
        vstd::arithmetic::div_mod::lemma_fundamental_div_mod_converse(
            count + 1,
            servers,
            q + 1,
            0,
        );
    } else {
        assert(count + 1 == q * servers + (r + 1)) by (nonlinear_arith)
            requires
                count == servers * q + r,
        ;
        vstd::arithmetic::div_mod::lemma_fundamental_div_mod_converse(
            count + 1,
            servers,
            q,
            r + 1,
        );
    }
}

/// A cyclic history gives every server its share.
pub proof fn lemma_cyclic_shares(history: Seq<Assignment>, servers: int, index: int)
    requires
        0 < servers,
        0 <= index < servers,
        cyclic(history, servers),
    ensures
        assigned_to(history, index) == cyclic_share(history.len() as int, servers, index),
    decreases history.len(),
{
    if history.len() > 0 {
        let earlier = history.drop_last();
        assert forall|j: int| 0 <= j < earlier.len() implies (#[trigger] earlier[j]).server_id == j
            % servers by {
            assert(history[j].server_id == j % servers);
        }
        lemma_cyclic_shares(earlier, servers, index);
        assert(history.last() == history[history.len() - 1]);
        lemma_cycle_step(earlier.len() as int, servers);
    } else {
        assert(0int / servers == 0 && 0int % servers == 0) by {
            vstd::arithmetic::div_mod::lemma_small_mod(0, servers as nat);
            vstd::arithmetic::div_mod::lemma_fundamental_div_mod_converse(0, servers, 0, 0);
        }
    }
}

/// The state of a round robin that started at index 0: the cursor is where
/// the history says, and the history is cyclic.
spec fn in_cycle(m: Machine) -> bool {
    &&& 0 < m.servers.len() <= usize::MAX
    &&& m.strategy == StrategyModel::RoundRobin {
        next_idx: (m.assignments.len() as int) % (m.servers.len() as int),
    }
    &&& cyclic(m.assignments, m.servers.len() as int)
}

proof fn lemma_cycle_step_on(m: Machine, bounds: Bounds, rules: Rules, draw: int)
    requires
        in_cycle(m),
        sound(m, bounds, rules),
    ensures
        in_cycle(step(m, rules, draw)),
        step(m, rules, draw).servers.len() == m.servers.len(),
{
    let next = step(m, rules, draw);
    let servers = m.servers.len() as int;
    let done = m.assignments.len() as int;
    lemma_cycle_step(done, servers);
    vstd::arithmetic::div_mod::lemma_small_mod((done % servers) as nat, servers as nat);
    if m.queue.len() > 0 {
        lemma_next_event_ready(m, bounds, rules);
        lemma_choice_in_range(m.strategy, m.servers, rules.stable, draw);
        let scheduled = crate::machine::next_event(m.queue);
        match scheduled.event {
            crate::events::Event::RequestComplete { server_id, .. } => {
                assert(next.assignments == m.assignments);
                assert(next.strategy == m.strategy);
            },
            crate::events::Event::RequestArrival(request) => {
                let selection = m.strategy.choice(m.servers, rules.stable, draw);
                assert(selection.server_id == done % servers);
                assert(next.assignments.len() == done + 1);
                assert(next.strategy == StrategyModel::RoundRobin {
                    next_idx: (done % servers + 1) % servers,
                });
                crate::algorithms::lemma_cursor_step(done % servers, servers);
                assert forall|j: int| 0 <= j < next.assignments.len() implies (
                #[trigger] next.assignments[j]).server_id == j % servers by {
                    if j < done {
                        assert(m.assignments[j].server_id == j % servers);
                        assert(next.assignments[j] == m.assignments[j]);
                    } else {
                        assert(next.assignments[j].server_id == selection.server_id);
                    }
                }
            },
        }
    }
}

proof fn lemma_cycle_goes_on(start: Machine, bounds: Bounds, rules: Rules, draws: Seq<int>)
    requires
        in_cycle(start),
        sound(start, bounds, rules),
    ensures
        in_cycle(after(start, rules, draws)),
        after(start, rules, draws).servers.len() == start.servers.len(),
    decreases draws.len(),
{
    if draws.len() > 0 {
        lemma_cycle_goes_on(start, bounds, rules, draws.drop_last());
        lemma_after_sound(start, bounds, rules, draws.drop_last());
        lemma_cycle_step_on(after(start, rules, draws.drop_last()), bounds, rules, draws.last());
    }
}

/// Round robin. A run with a fresh round-robin strategy visits the servers
/// in strict cyclic order, starting at index 0: request `j` in processing
/// order goes to server `j mod k`. So of `n` requests each of the `k`
/// servers gets `floor(n / k)` or one more: `n / k`, and one more for the
/// first `n mod k` servers.
pub proof fn lemma_round_robin_is_cyclic(config: SimConfig, draws: Seq<int>, result: SimulationResult)
    requires
        run_ends(config, StrategyModel::fresh(AlgoConfig::RoundRobin), draws, result),
    ensures
        config.store_assignments ==> cyclic(result.assignments@, config.servers@.len() as int),
        result.totals@.len() == config.servers@.len(),
        forall|i: int|
            0 <= i < result.totals@.len() ==> (#[trigger] result.totals@[i]).requests
                == cyclic_share(
                requests_for(config).len() as int,
                config.servers@.len() as int,
                i,
            ),
{
    let start = start_of(config, StrategyModel::fresh(AlgoConfig::RoundRobin));
    let rules = rules_of(config);
    let end = after(start, rules, draws);
    let servers = config.servers@.len() as int;
    assert(0int % servers == 0) by {
        vstd::arithmetic::div_mod::lemma_small_mod(0, servers as nat);
    }
    lemma_cycle_goes_on(start, bounds_of(config), rules, draws);
    assert forall|i: int| 0 <= i < result.totals@.len() implies (#[trigger] result.totals@[i]).requests
        == cyclic_share(requests_for(config).len() as int, servers, i) by {
        lemma_cyclic_shares(end.assignments, servers, i);
        assert(server_sound(end, i, bounds_of(config), rules));
    }
}

} // verus!
