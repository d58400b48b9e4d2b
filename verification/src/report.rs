//! The report of a run: what the result says of the state that the run
//! ended in.

use vstd::prelude::*;
use crate::engine::requests_for;
use crate::machine::{assignment_sound, server_sound, sound, Bounds, Machine, Rules};
use crate::metrics::{assigned_to, average_response, count_sum, describes, latest_completion};
use crate::models::{algo_label, tie_break_label, SimConfig};
use crate::state::{Assignment, ServerState, ServerSummary, SimulationResult};

verus! {

/// The summary line of server `index` after a run with this history.
pub open spec fn summary_of(server: ServerState, history: Seq<Assignment>, index: int) -> ServerSummary {
    ServerSummary {
        name: server.name,
        requests: assigned_to(history, index) as u32,
        avg_response_ms: average_response(history, index) as u64,
    }
}

/// The result reports the run that ended in state `end`: the history if it
/// was asked for, one summary per server in input order, how the run was
/// configured and how long it took, and the metrics of the history.
pub open spec fn reports(result: SimulationResult, config: SimConfig, end: Machine) -> bool {
    &&& result.assignments@ == if config.store_assignments {
        end.assignments
    } else {
        Seq::<Assignment>::empty()
    }
    &&& result.totals@ == Seq::new(
        end.servers.len(),
        |i: int| summary_of(end.servers[i], end.assignments, i),
    )
    &&& result.metadata.algo@ == algo_label(config.algo)
    &&& result.metadata.tie_break@ == tie_break_label(config.tie_break, config.seed)
    &&& result.metadata.duration_ms == latest_completion(end.assignments)
    &&& describes(
        result.metrics,
        end.assignments,
        Seq::new(end.servers.len(), |i: int| end.servers[i].pick_count),
    )
}

/// The requests that the first `upto` summaries count, together.
pub open spec fn summed_requests(totals: Seq<ServerSummary>, upto: int) -> int
    decreases upto,
{
    if upto <= 0 {
        0
    } else {
        summed_requests(totals, upto - 1) + totals[upto - 1].requests
    }
}

/// What every reported run has: one summary per server, under the server's
/// name and in input order; summaries that count every generated request
/// exactly once; and a history, where it was asked for, that holds every
/// request with its times in order: arrival, start of service, completion.
pub open spec fn well_reported(config: SimConfig, result: SimulationResult) -> bool {
    &&& result.totals@.len() == config.servers@.len()
    &&& forall|i: int|
        0 <= i < result.totals@.len() ==> (#[trigger] result.totals@[i]).name
            == config.servers@[i].name
    &&& summed_requests(result.totals@, result.totals@.len() as int) == requests_for(config).len()
    &&& result.assignments@.len() == if config.store_assignments {
        requests_for(config).len()
    } else {
        0
    }
    &&& forall|k: int|
        0 <= k < result.assignments@.len() ==> {
            let assignment = #[trigger] result.assignments@[k];
            &&& assignment.timely()
            &&& assignment.server_id < config.servers@.len()
            &&& assignment.server_name == config.servers@[assignment.server_id as int].name
        }
}

/// The summaries of a run count what the history routed.
pub proof fn lemma_summed_is_routed(totals: Seq<ServerSummary>, end: Machine, upto: int)
    requires
        0 <= upto <= totals.len(),
        totals == Seq::new(end.servers.len(), |i: int| summary_of(end.servers[i], end.assignments, i)),
        forall|i: int|
            0 <= i < end.servers.len() ==> 0 <= #[trigger] assigned_to(end.assignments, i)
                <= u32::MAX,
    ensures
        summed_requests(totals, upto) == routed_sum(end.assignments, upto),
    decreases upto,
{
    if upto > 0 {
        lemma_summed_is_routed(totals, end, upto - 1);
        assert(0 <= assigned_to(end.assignments, upto - 1) <= u32::MAX);
    }
}

/// The sum of the first `upto` per-server request counts of a history.
pub open spec fn routed_sum(history: Seq<Assignment>, upto: int) -> int
    decreases upto,
{
    if upto <= 0 {
        0
    } else {
        routed_sum(history, upto - 1) + assigned_to(history, upto - 1)
    }
}

proof fn lemma_routed_sum_grows(history: Seq<Assignment>, next: Assignment, upto: int)
    requires
        0 <= upto,
    ensures
        routed_sum(history.push(next), upto) == routed_sum(history, upto) + if next.server_id < upto {
            1int
        } else {
            0int
        },
    decreases upto,
{
    if upto > 0 {
        lemma_routed_sum_grows(history, next, upto - 1);
        assert(history.push(next).drop_last() =~= history);
    }
}

proof fn lemma_routed_sum_empty(upto: int)
    ensures
        routed_sum(Seq::<Assignment>::empty(), upto) == 0,
    decreases upto,
{
    if upto > 0 {
        lemma_routed_sum_empty(upto - 1);
    }
}

/// Every request of a history is counted for exactly one server.
pub proof fn lemma_routed_sum_is_length(history: Seq<Assignment>, servers: int)
    requires
        forall|k: int| 0 <= k < history.len() ==> (#[trigger] history[k]).server_id < servers,
    ensures
        routed_sum(history, servers) == history.len(),
    decreases history.len(),
{
    if history.len() > 0 {
        let earlier = history.drop_last();
        assert forall|k: int| 0 <= k < earlier.len() implies (#[trigger] earlier[k]).server_id
            < servers by {
            assert(history[k].server_id < servers);
        }
        lemma_routed_sum_is_length(earlier, servers);
        assert(history.last() == history[history.len() - 1]);
        lemma_routed_sum_grows(earlier, history.last(), servers);
        assert(earlier.push(history.last()) =~= history);
    } else {
        assert(history =~= Seq::<Assignment>::empty());
        lemma_routed_sum_empty(servers);
    }
}

proof fn lemma_count_sum_is_routed_sum(history: Seq<Assignment>, counts: Seq<u32>, upto: int)
    requires
        0 <= upto <= counts.len(),
        forall|i: int| 0 <= i < counts.len() ==> #[trigger] counts[i] == assigned_to(history, i),
    ensures
        count_sum(counts, upto) == routed_sum(history, upto),
    decreases upto,
{
    if upto > 0 {
        lemma_count_sum_is_routed_sum(history, counts, upto - 1);
    }
}

/// In a sound state the per-server pick counts add up to the number of
/// requests routed so far.
pub proof fn lemma_counts_add_up(m: Machine, bounds: Bounds, rules: Rules, counts: Seq<u32>)
    requires
        sound(m, bounds, rules),
        counts == Seq::new(m.servers.len(), |i: int| m.servers[i].pick_count),
    ensures
        count_sum(counts, counts.len() as int) == m.assignments.len(),
        m.assignments.len() <= u32::MAX,
{
    assert forall|k: int| 0 <= k < m.assignments.len() implies (#[trigger] m.assignments[k]).server_id
        < m.servers.len() by {
        assert(assignment_sound(m.assignments[k], m.servers));
    }
    lemma_routed_sum_is_length(m.assignments, m.servers.len() as int);
    assert forall|i: int| 0 <= i < counts.len() implies #[trigger] counts[i] == assigned_to(
        m.assignments,
        i,
    ) by {
        assert(server_sound(m, i, bounds, rules));
    }
    lemma_count_sum_is_routed_sum(m.assignments, counts, counts.len() as int);
}

} // verus!
