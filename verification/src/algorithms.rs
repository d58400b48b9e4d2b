//! Server selection: the four policies as plain functions, and the
//! strategy types that carry their state from one request to the next.

mod least_connections;
mod least_response_time;
mod round_robin;
mod weighted_round_robin;

use vstd::prelude::*;
use rand::rngs::StdRng;
use crate::models::{AlgoConfig, ServerConfig};
use crate::rng::draw_below;
use crate::state::ServerState;

pub use least_connections::LeastConnectionsStrategy;
pub use least_response_time::LeastResponseTimeStrategy;
pub use round_robin::RoundRobinStrategy;
pub use weighted_round_robin::{first_beyond, running_totals, WeightedRoundRobinStrategy};

verus! {

/// What a strategy sees when it is asked for a server: the current server
/// states, the clock, and the tie-break stream (`None` under the stable rule).
pub struct SelectionContext<'a> {
    pub servers: &'a [ServerState],
    pub time_ms: u64,
    pub rng: Option<&'a mut StdRng>,
}

/// The chosen server and, for score-based policies, the winning score.
#[derive(Clone, Copy, Debug, PartialEq, Eq, Structural)]
pub struct Selection {
    pub server_id: usize,
    pub score: Option<u64>,
}

/// A selection policy with whatever state it carries between requests.
pub trait SelectionStrategy {
    /// The server lists that the strategy, in its present state, can choose from.
    spec fn admits(&self, servers: Seq<ServerState>) -> bool;

    /// The selection that the strategy makes for a given tie-break draw.
    spec fn choice(&self, servers: Seq<ServerState>, stable: bool, draw: int) -> Selection;

    fn select(&mut self, ctx: &mut SelectionContext<'_>) -> (selection: Selection)
        requires
            old(self).admits(old(ctx).servers@),
        ensures
            exists|draw: int|
                selection == #[trigger] old(self).choice(
                    old(ctx).servers@,
                    old(ctx).rng is None,
                    draw,
                ),
            selection.server_id < old(ctx).servers@.len(),
            final(ctx).servers@ == old(ctx).servers@,
            final(ctx).time_ms == old(ctx).time_ms,
            final(ctx).rng is None == old(ctx).rng is None,
    ;
}

/// The state that a strategy carries between requests, as a plain value.
pub enum StrategyModel {
    RoundRobin { next_idx: int },
    WeightedRoundRobin { cursor: int, cache: Seq<u64> },
    LeastConnections,
    LeastResponseTime,
}

impl StrategyModel {
    /// The running totals that a weighted selection among `servers` works
    /// with: the cached ones if they are as many as the servers, fresh ones
    /// otherwise.
    pub open spec fn totals_for(cache: Seq<u64>, servers: Seq<ServerState>) -> Seq<u64> {
        if cache.len() == servers.len() {
            cache
        } else {
            Seq::new(servers.len(), |i: int| weight_sum(state_weights(servers), i + 1) as u64)
        }
    }

    /// A cache of running totals can be bisected: it ascends and ends above zero.
    pub open spec fn cache_usable(cache: Seq<u64>) -> bool {
        cache.len() > 0 ==> {
            &&& forall|i: int, j: int| 0 <= i <= j < cache.len() ==> cache[i] <= cache[j]
            &&& cache.last() > 0
        }
    }

    /// The server lists that the strategy, in this state, can choose from.
    pub open spec fn admits(self, servers: Seq<ServerState>) -> bool {
        &&& servers.len() > 0
        &&& match self {
            StrategyModel::RoundRobin { next_idx } => next_idx >= 0,
            StrategyModel::WeightedRoundRobin { cursor, cache } => {
                &&& cursor >= 0
                &&& Self::cache_usable(cache)
                &&& cache.len() != servers.len() ==> 0 < total_weight(state_weights(servers))
                    <= u64::MAX
            },
            StrategyModel::LeastConnections => true,
            StrategyModel::LeastResponseTime => forall|i: int|
                0 <= i < servers.len() ==> response_score(
                    (#[trigger] servers[i]).base_latency_ms,
                    servers[i].pick_count,
                ) <= u64::MAX,
        }
    }

    /// The selection made among `servers` for a given tie-break draw.
    pub open spec fn choice(self, servers: Seq<ServerState>, stable: bool, draw: int) -> Selection {
        match self {
            StrategyModel::RoundRobin { next_idx } => Selection {
                server_id: (next_idx % (servers.len() as int)) as usize,
                score: None,
            },
            StrategyModel::WeightedRoundRobin { cursor, cache } => {
                let totals = Self::totals_for(cache, servers);
                let target = cursor % (totals.last() as int);
                Selection {
                    server_id: choose|index: usize| first_beyond(totals, target, index as int),
                    score: None,
                }
            },
            StrategyModel::LeastConnections => Selection {
                server_id: tie_choice(least_positions(connection_counts(servers)), stable, draw),
                score: None,
            },
            StrategyModel::LeastResponseTime => {
                let winner = tie_choice(least_positions(state_scores(servers)), stable, draw);
                Selection { server_id: winner, score: Some(state_scores(servers)[winner as int]) }
            },
        }
    }

    /// The state after one selection among `servers`.
    pub open spec fn advanced(self, servers: Seq<ServerState>) -> StrategyModel {
        match self {
            StrategyModel::RoundRobin { next_idx } => StrategyModel::RoundRobin {
                next_idx: (next_idx + 1) % (servers.len() as int),
            },
            StrategyModel::WeightedRoundRobin { cursor, cache } => {
                let totals = Self::totals_for(cache, servers);
                StrategyModel::WeightedRoundRobin {
                    cursor: (cursor + 1) % (totals.last() as int),
                    cache: totals,
                }
            },
            StrategyModel::LeastConnections => StrategyModel::LeastConnections,
            StrategyModel::LeastResponseTime => StrategyModel::LeastResponseTime,
        }
    }

    /// Whether a selection in this state may consult the tie-break stream.
    pub open spec fn breaks_ties(self) -> bool {
        self is LeastConnections || self is LeastResponseTime
    }

    /// The state in which a fresh strategy for `algo` starts.
    pub open spec fn fresh(algo: AlgoConfig) -> StrategyModel {
        match algo {
            AlgoConfig::RoundRobin => StrategyModel::RoundRobin { next_idx: 0 },
            AlgoConfig::WeightedRoundRobin => StrategyModel::WeightedRoundRobin {
                cursor: 0,
                cache: Seq::empty(),
            },
            AlgoConfig::LeastConnections => StrategyModel::LeastConnections,
            AlgoConfig::LeastResponseTime => StrategyModel::LeastResponseTime,
        }
    }
}

/// One of the four policies, with its state.
#[derive(Debug)]
pub enum Strategy {
    RoundRobin(RoundRobinStrategy),
    WeightedRoundRobin(WeightedRoundRobinStrategy),
    LeastConnections(LeastConnectionsStrategy),
    LeastResponseTime(LeastResponseTimeStrategy),
}

impl View for Strategy {
    type V = StrategyModel;

    open spec fn view(&self) -> StrategyModel {
        match self {
            Strategy::RoundRobin(inner) => StrategyModel::RoundRobin { next_idx: inner@ },
            Strategy::WeightedRoundRobin(inner) => StrategyModel::WeightedRoundRobin {
                cursor: inner.cursor(),
                cache: inner.cache(),
            },
            Strategy::LeastConnections(_) => StrategyModel::LeastConnections,
            Strategy::LeastResponseTime(_) => StrategyModel::LeastResponseTime,
        }
    }
}

impl SelectionStrategy for Strategy {
    open spec fn admits(&self, servers: Seq<ServerState>) -> bool {
        self@.admits(servers)
    }

    open spec fn choice(&self, servers: Seq<ServerState>, stable: bool, draw: int) -> Selection {
        self@.choice(servers, stable, draw)
    }

    /// A policy without ties leaves the tie-break stream untouched.
    fn select(&mut self, ctx: &mut SelectionContext<'_>) -> (selection: Selection)
        ensures
            final(self)@ == old(self)@.advanced(old(ctx).servers@),
            !old(self)@.breaks_ties() ==> (old(ctx).rng matches Some(before) ==> final(ctx).rng
                matches Some(later) && *later == *before),
    {
        match self {
            Strategy::RoundRobin(inner) => {
                let ghost before = *inner;
                proof {
                    inner.lemma_cursor_not_negative();
                }
                let selection = inner.select(ctx);
                proof {
                    let draw = choose|draw: int|
                        selection == #[trigger] before.choice(
                            old(ctx).servers@,
                            old(ctx).rng is None,
                            draw,
                        );
                    assert(selection == old(self).choice(
                        old(ctx).servers@,
                        old(ctx).rng is None,
                        draw,
                    ));
                }
                selection
            },
            Strategy::WeightedRoundRobin(inner) => {
                let ghost before = *inner;
                proof {
                    inner.lemma_cursor_not_negative();
                }
                let selection = inner.select(ctx);
                proof {
                    let draw = choose|draw: int|
                        selection == #[trigger] before.choice(
                            old(ctx).servers@,
                            old(ctx).rng is None,
                            draw,
                        );
                    assert(selection == old(self).choice(
                        old(ctx).servers@,
                        old(ctx).rng is None,
                        draw,
                    ));
                }
                selection
            },
            Strategy::LeastConnections(inner) => {
                let ghost before = *inner;
                let selection = inner.select(ctx);
                proof {
                    let draw = choose|draw: int|
                        selection == #[trigger] before.choice(
                            old(ctx).servers@,
                            old(ctx).rng is None,
                            draw,
                        );
                    assert(selection == old(self).choice(
                        old(ctx).servers@,
                        old(ctx).rng is None,
                        draw,
                    ));
                }
                selection
            },
            Strategy::LeastResponseTime(inner) => {
                let ghost before = *inner;
                let selection = inner.select(ctx);
                proof {
                    let draw = choose|draw: int|
                        selection == #[trigger] before.choice(
                            old(ctx).servers@,
                            old(ctx).rng is None,
                            draw,
                        );
                    assert(selection == old(self).choice(
                        old(ctx).servers@,
                        old(ctx).rng is None,
                        draw,
                    ));
                }
                selection
            },
        }
    }
}

impl Strategy {
    /// Whether the policy can meet a tie, and so may consult the tie-break stream.
    pub fn breaks_ties(&self) -> (answer: bool)
        ensures
            answer == self@.breaks_ties(),
    {
        match self {
            Strategy::RoundRobin(_) => false,
            Strategy::WeightedRoundRobin(_) => false,
            Strategy::LeastConnections(_) => true,
            Strategy::LeastResponseTime(_) => true,
        }
    }

    /// What holds of the state of every strategy value: cursors are not
    /// negative and a cache of running totals can be bisected. Nothing to do
    /// at run time, something to know in proofs.
    pub fn confirm_usable(&self)
        ensures
            self@ matches StrategyModel::RoundRobin { next_idx } ==> next_idx >= 0,
            self@ matches StrategyModel::WeightedRoundRobin { cursor, cache } ==> cursor >= 0
                && StrategyModel::cache_usable(cache),
    {
        match self {
            Strategy::RoundRobin(inner) => {
                proof {
                    inner.lemma_cursor_not_negative();
                }
            },
            Strategy::WeightedRoundRobin(inner) => {
                inner.confirm_usable();
                proof {
                    inner.lemma_cursor_not_negative();
                }
            },
            _ => {},
        }
    }
}

/// A fresh strategy for the configured policy.
pub fn build_strategy(algo: AlgoConfig) -> (strategy: Strategy)
    ensures
        strategy@ == StrategyModel::fresh(algo),
{
    match algo {
        AlgoConfig::RoundRobin => Strategy::RoundRobin(RoundRobinStrategy::default()),
        AlgoConfig::WeightedRoundRobin => {
            let inner = WeightedRoundRobinStrategy::default();
            proof {
                assert(inner.cache() =~= Seq::<u64>::empty());
            }
            Strategy::WeightedRoundRobin(inner)
        },
        AlgoConfig::LeastConnections => Strategy::LeastConnections(LeastConnectionsStrategy),
        AlgoConfig::LeastResponseTime => Strategy::LeastResponseTime(LeastResponseTimeStrategy),
    }
}

/// The smallest of the first `upto` values (of the first one, if `upto < 1`).
pub open spec fn least_of(values: Seq<u64>, upto: int) -> u64
    decreases upto,
{
    if upto <= 1 {
        values[0]
    } else {
        let earlier = least_of(values, upto - 1);
        if values[upto - 1] < earlier {
            values[upto - 1]
        } else {
            earlier
        }
    }
}

/// The positions below `upto` that hold `target`, in ascending order.
pub open spec fn positions_of(values: Seq<u64>, target: u64, upto: int) -> Seq<usize>
    decreases upto,
{
    if upto <= 0 {
        Seq::empty()
    } else {
        let earlier = positions_of(values, target, upto - 1);
        if values[upto - 1] == target {
            earlier.push((upto - 1) as usize)
        } else {
            earlier
        }
    }
}

/// The candidates of a least-value policy: every position that holds the
/// smallest value, lowest position first.
pub open spec fn least_positions(values: Seq<u64>) -> Seq<usize> {
    positions_of(values, least_of(values, values.len() as int), values.len() as int)
}

/// The candidate that wins a tie. A lone candidate wins outright; the stable
/// rule takes the first; otherwise the one at the drawn position wins.
pub open spec fn tie_choice(candidates: Seq<usize>, stable: bool, draw: int) -> usize {
    if stable || candidates.len() == 1 || !(0 <= draw < candidates.len()) {
        candidates[0]
    } else {
        candidates[draw]
    }
}

/// The sum of the first `upto` weights.
pub open spec fn weight_sum(weights: Seq<u32>, upto: int) -> int
    decreases upto,
{
    if upto <= 0 {
        0
    } else {
        weight_sum(weights, upto - 1) + weights[upto - 1]
    }
}

/// All the weights together.
pub open spec fn total_weight(weights: Seq<u32>) -> int {
    weight_sum(weights, weights.len() as int)
}

/// Slot `target` of a weighted cycle belongs to server `index`: the running
/// total reaches beyond `target` at `index` and not before.
pub open spec fn owns_slot(weights: Seq<u32>, target: int, index: int) -> bool {
    &&& 0 <= index < weights.len()
    &&& weight_sum(weights, index) <= target < weight_sum(weights, index + 1)
}

/// The weights of a server list, in input order.
pub open spec fn config_weights(servers: Seq<ServerConfig>) -> Seq<u32> {
    servers.map_values(|server: ServerConfig| server.weight)
}

/// The open connections of each server, in input order.
pub open spec fn connection_counts(states: Seq<ServerState>) -> Seq<u64> {
    states.map_values(|state: ServerState| state.active_connections as u64)
}

/// The score of each configured server, from its latency and the picks that
/// its state has counted (0 where the score does not fit 64 bits).
pub open spec fn config_scores(servers: Seq<ServerConfig>, states: Seq<ServerState>) -> Seq<u64> {
    Seq::new(
        servers.len(),
        |i: int|
            {
                let score = response_score(servers[i].base_latency_ms, states[i].pick_count);
                if score <= u64::MAX {
                    score as u64
                } else {
                    0
                }
            },
    )
}

/// The score of each server as its own state records it (0 where the score
/// does not fit 64 bits).
pub open spec fn state_scores(states: Seq<ServerState>) -> Seq<u64> {
    Seq::new(
        states.len(),
        |i: int|
            {
                let score = response_score(states[i].base_latency_ms, states[i].pick_count);
                if score <= u64::MAX {
                    score as u64
                } else {
                    0
                }
            },
    )
}

/// The weights of the servers as their states record them.
pub open spec fn state_weights(states: Seq<ServerState>) -> Seq<u32> {
    states.map_values(|state: ServerState| state.weight)
}

/// Load-penalised latency estimate: the base latency plus 10 ms per earlier pick.
pub open spec fn response_score(base_latency_ms: u64, pick_count: u32) -> int {
    base_latency_ms + pick_count * 10
}

pub proof fn lemma_least_of_bounds(values: Seq<u64>, upto: int)
    requires
        1 <= upto <= values.len(),
    ensures
        forall|j: int| 0 <= j < upto ==> least_of(values, upto) <= #[trigger] values[j],
        exists|j: int| 0 <= j < upto && values[j] == least_of(values, upto),
    decreases upto,
{
    if upto > 1 {
        lemma_least_of_bounds(values, upto - 1);
        let j = choose|j: int| 0 <= j < upto - 1 && values[j] == least_of(values, upto - 1);
        if values[upto - 1] < least_of(values, upto - 1) {
            assert(values[upto - 1] == least_of(values, upto));
        } else {
            assert(values[j] == least_of(values, upto));
        }
    } else {
        assert(values[0] == least_of(values, upto));
    }
}

/// `positions_of` lists exactly the positions that hold the target, each
/// once and in ascending order.
pub proof fn lemma_positions_of_exact(values: Seq<u64>, target: u64, upto: int)
    requires
        0 <= upto <= values.len(),
        values.len() <= usize::MAX,
    ensures
        forall|k: int|
            0 <= k < positions_of(values, target, upto).len() ==> {
                let at = #[trigger] positions_of(values, target, upto)[k];
                at < upto && values[at as int] == target
            },
        forall|k: int, l: int|
            0 <= k < l < positions_of(values, target, upto).len() ==> positions_of(
                values,
                target,
                upto,
            )[k] < positions_of(values, target, upto)[l],
        forall|j: int|
            0 <= j < upto && values[j] == target ==> positions_of(values, target, upto).contains(
                j as usize,
            ),
        positions_of(values, target, upto).len() <= upto,
    decreases upto,
{
    if upto > 0 {
        lemma_positions_of_exact(values, target, upto - 1);
        let earlier = positions_of(values, target, upto - 1);
        let all = positions_of(values, target, upto);
        assert forall|j: int| 0 <= j < upto && values[j] == target implies all.contains(
            j as usize,
        ) by {
            if j < upto - 1 {
                assert(earlier.contains(j as usize));
                let k = choose|k: int| 0 <= k < earlier.len() && earlier[k] == j as usize;
                assert(all[k] == j as usize);
            } else {
                assert(all[all.len() - 1] == j as usize);
            }
        }
    }
}

/// The candidates are never empty, start at the lowest position that holds
/// the least value, and hold nothing but least values.
pub proof fn lemma_least_positions_exact(values: Seq<u64>)
    requires
        0 < values.len() <= usize::MAX,
    ensures
        least_positions(values).len() > 0,
        forall|k: int|
            0 <= k < least_positions(values).len() ==> {
                let at = #[trigger] least_positions(values)[k];
                &&& at < values.len()
                &&& forall|j: int| 0 <= j < values.len() ==> values[at as int] <= #[trigger] values[j]
            },
        forall|j: int|
            0 <= j < least_positions(values)[0] ==> #[trigger] values[j] > values[least_positions(
                values,
            )[0] as int],
{
    let n = values.len() as int;
    let least = least_of(values, n);
    lemma_least_of_bounds(values, n);
    lemma_positions_of_exact(values, least, n);
    let found = least_positions(values);
    let j0 = choose|j: int| 0 <= j < n && values[j] == least;
    assert(found.contains(j0 as usize));
    assert forall|j: int| 0 <= j < found[0] implies #[trigger] values[j] > values[found[0] as int] by {
        if values[j] == least {
            assert(found.contains(j as usize));
            let k = choose|k: int| 0 <= k < found.len() && found[k] == j as usize;
            if k > 0 {
                assert(found[0] < found[k]);
            }
        }
    }
}

proof fn lemma_positions_of_absent(values: Seq<u64>, target: u64, upto: int)
    requires
        0 <= upto <= values.len(),
        forall|j: int| 0 <= j < upto ==> values[j] != target,
    ensures
        positions_of(values, target, upto) == Seq::<usize>::empty(),
    decreases upto,
{
    if upto > 0 {
        lemma_positions_of_absent(values, target, upto - 1);
    }
}

/// The running total of the weights never falls.
pub proof fn lemma_weight_sum_grows(weights: Seq<u32>, from: int, upto: int)
    requires
        0 <= from <= upto,
    ensures
        weight_sum(weights, from) <= weight_sum(weights, upto),
    decreases upto,
{
    if from < upto {
        lemma_weight_sum_grows(weights, from, upto - 1);
    }
}

/// One step round a cycle of `cycle` slots.
pub proof fn lemma_cursor_step(cursor: int, cycle: int)
    requires
        0 <= cursor,
        0 < cycle,
    ensures
        0 <= cursor % cycle < cycle,
        (cursor + 1) % cycle == if cursor % cycle + 1 == cycle {
            0
        } else {
            cursor % cycle + 1
        },
{
    vstd::arithmetic::div_mod::lemma_fundamental_div_mod(cursor, cycle);
    vstd::arithmetic::div_mod::lemma_mod_bound(cursor, cycle);
    let q = cursor / cycle;
    let r = cursor % cycle;
    if r + 1 == cycle {
        assert(cursor + 1 == (q + 1) * cycle + 0) by (nonlinear_arith)
            requires
                cursor == cycle * q + r,
                r + 1 == cycle,
        ;
        vstd::arithmetic::div_mod::lemma_fundamental_div_mod_converse(cursor + 1, cycle, q + 1, 0);
    } else {
        assert(cursor + 1 == q * cycle + (r + 1)) by (nonlinear_arith)
            requires
                cursor == cycle * q + r,
        ;
        vstd::arithmetic::div_mod::lemma_fundamental_div_mod_converse(cursor + 1, cycle, q, r + 1);
    }
}

/// Collects the positions of the least value, lowest position first.
pub fn find_least_positions(values: &Vec<u64>) -> (found: Vec<usize>)
    requires
        values.len() > 0,
    ensures
        found@ == least_positions(values@),
        found.len() > 0,
{
    let mut least: u64 = values[0];
    let mut found: Vec<usize> = Vec::new();
    found.push(0);
    proof {
        assert(positions_of(values@, least, 0) =~= Seq::<usize>::empty());
        assert(found@ =~= positions_of(values@, least, 1));
    }
    let mut idx: usize = 1;
    while idx < values.len()
        invariant
            1 <= idx <= values.len(),
            least == least_of(values@, idx as int),
            found@ == positions_of(values@, least, idx as int),
            found.len() > 0,
        decreases values.len() - idx,
    {
        let value: u64 = values[idx];
        if value < least {
            proof {
                lemma_least_of_bounds(values@, idx as int);
                lemma_positions_of_absent(values@, value, idx as int);
            }
            least = value;
            found.clear();
            found.push(idx);
        } else if value == least {
            found.push(idx);
        }
        idx += 1;
    }
    found
}

/// Resolves a tie once the draw, if any, is known.
pub fn resolve_tie(candidates: &[usize], draw: Option<usize>) -> (chosen: usize)
    requires
        candidates.len() > 0,
        draw matches Some(position) ==> position < candidates.len(),
    ensures
        chosen == match draw {
            Some(position) => candidates@[position as int],
            None => candidates@[0],
        },
{
    match draw {
        Some(position) => candidates[position],
        None => candidates[0],
    }
}

/// Picks one of the candidates: the only one, or the first under the stable
/// rule (`rng` is `None`), or the one at a position drawn from `rng`. The
/// stream is consulted only for a real tie.
pub fn pick_index(candidates: &[usize], rng: Option<&mut StdRng>) -> (chosen: usize)
    requires
        candidates.len() > 0,
    ensures
        exists|draw: int| chosen == #[trigger] tie_choice(candidates@, rng is None, draw),
        candidates@.contains(chosen),
        rng is None || candidates.len() == 1 ==> chosen == candidates@[0],
        candidates.len() == 1 ==> (rng matches Some(stream) ==> *final(stream) == *stream),
{
    let draw: Option<usize> = match rng {
        Some(stream) => {
            if candidates.len() > 1 {
                Some(draw_below(stream, candidates.len()))
            } else {
                None
            }
        },
        None => None,
    };
    let chosen: usize = resolve_tie(candidates, draw);
    proof {
        match draw {
            Some(position) => {
                assert(chosen == tie_choice(candidates@, rng is None, position as int));
                assert(candidates@[position as int] == chosen);
            },
            None => {
                assert(chosen == tie_choice(candidates@, rng is None, 0));
                assert(candidates@[0] == chosen);
            },
        }
    }
    chosen
}

/// Round robin: hands out the cursor's position among `len` servers and
/// moves the cursor one step round the cycle.
pub fn pick_round_robin(next_idx: &mut usize, len: usize) -> (idx: usize)
    requires
        len > 0,
    ensures
        idx == *old(next_idx) % len,
        *final(next_idx) == (*old(next_idx) + 1) % (len as int),
{
    let idx: usize = *next_idx % len;
    proof {
        lemma_cursor_step(*next_idx as int, len as int);
    }
    *next_idx = if idx + 1 == len {
        0
    } else {
        idx + 1
    };
    idx
}

/// Weighted round robin: slot `cursor mod total` of the cycle goes to the
/// server that owns it, and the cursor moves one step round the cycle.
pub fn pick_weighted_round_robin(next_idx: &mut usize, servers: &[ServerConfig]) -> (idx: usize)
    requires
        0 < total_weight(config_weights(servers@)) <= usize::MAX,
    ensures
        owns_slot(
            config_weights(servers@),
            (*old(next_idx) as int) % total_weight(config_weights(servers@)),
            idx as int,
        ),
        *final(next_idx) == (*old(next_idx) + 1) % total_weight(config_weights(servers@)),
{
    let ghost weights = config_weights(servers@);
    let mut total: u64 = 0;
    let mut k: usize = 0;
    while k < servers.len()
        invariant
            k <= servers.len(),
            weights == config_weights(servers@),
            total == weight_sum(weights, k as int),
            total_weight(weights) <= usize::MAX,
        decreases servers.len() - k,
    {
        proof {
            lemma_weight_sum_grows(weights, k as int + 1, weights.len() as int);
        }
        total = total + servers[k].weight as u64;
        k += 1;
    }
    let cycle: usize = total as usize;
    let target: usize = *next_idx % cycle;
    proof {
        lemma_cursor_step(*next_idx as int, cycle as int);
    }
    *next_idx = if target + 1 == cycle {
        0
    } else {
        target + 1
    };

    let mut reached: u64 = 0;
    let mut idx: usize = 0;
    while idx < servers.len()
        invariant
            idx <= servers.len(),
            weights == config_weights(servers@),
            reached == weight_sum(weights, idx as int),
            reached <= target < total_weight(weights) <= usize::MAX,
            target == (*old(next_idx) as int) % total_weight(weights),
            *next_idx == (*old(next_idx) + 1) % total_weight(weights),
        decreases servers.len() - idx,
    {
        proof {
            lemma_weight_sum_grows(weights, idx as int + 1, weights.len() as int);
        }
        reached = reached + servers[idx].weight as u64;
        if (target as u64) < reached {
            return idx;
        }
        idx += 1;
    }
    0
}

/// Least connections: a server with the fewest open connections; among
/// several, the winner of the tie.
pub fn pick_least_connections(states: &[ServerState], rng: Option<&mut StdRng>) -> (idx: usize)
    requires
        states.len() > 0,
    ensures
        exists|draw: int|
            idx == #[trigger] tie_choice(
                least_positions(connection_counts(states@)),
                rng is None,
                draw,
            ),
        idx < states.len(),
        forall|j: int|
            0 <= j < states.len() ==> states@[idx as int].active_connections
                <= #[trigger] states@[j].active_connections,
        rng is None ==> forall|j: int|
            0 <= j < idx ==> states@[idx as int].active_connections
                < #[trigger] states@[j].active_connections,
        least_positions(connection_counts(states@)).len() == 1 ==> (rng matches Some(stream)
            ==> *final(stream) == *stream),
{
    let mut counts: Vec<u64> = Vec::new();
    let mut k: usize = 0;
    while k < states.len()
        invariant
            k <= states.len(),
            counts@ == connection_counts(states@).take(k as int),
        decreases states.len() - k,
    {
        counts.push(states[k].active_connections as u64);
        proof {
            assert(counts@ =~= connection_counts(states@).take(k as int + 1));
        }
        k += 1;
    }
    proof {
        assert(counts@ =~= connection_counts(states@));
        lemma_least_positions_exact(counts@);
    }
    let candidates: Vec<usize> = find_least_positions(&counts);
    let idx: usize = pick_index(candidates.as_slice(), rng);
    proof {
        let at = choose|at: int| 0 <= at < candidates@.len() && candidates@[at] == idx;
        assert(idx == least_positions(counts@)[at]);
        assert forall|j: int| 0 <= j < states.len() implies states@[idx as int].active_connections
            <= #[trigger] states@[j].active_connections by {
            assert(counts@[idx as int] <= counts@[j]);
        }
        if rng is None {
            assert forall|j: int| 0 <= j < idx implies states@[idx as int].active_connections
                < #[trigger] states@[j].active_connections by {
                assert(counts@[j] > counts@[idx as int]);
            }
        }
    }
    idx
}

/// Least response time: a server with the lowest score, where a score is
/// the base latency plus 10 ms for each time the server was picked before;
/// among several, the winner of the tie. The winning score comes back too.
pub fn pick_least_response_time(
    servers: &[ServerConfig],
    states: &[ServerState],
    rng: Option<&mut StdRng>,
) -> (picked: (usize, u64))
    requires
        0 < servers.len() <= states.len(),
        forall|i: int|
            0 <= i < servers.len() ==> response_score(
                (#[trigger] servers@[i]).base_latency_ms,
                states@[i].pick_count,
            ) <= u64::MAX,
    ensures
        exists|draw: int|
            picked.0 == #[trigger] tie_choice(
                least_positions(config_scores(servers@, states@)),
                rng is None,
                draw,
            ),
        picked.0 < servers.len(),
        picked.1 == response_score(
            servers@[picked.0 as int].base_latency_ms,
            states@[picked.0 as int].pick_count,
        ),
        forall|j: int|
            0 <= j < servers.len() ==> picked.1 <= response_score(
                (#[trigger] servers@[j]).base_latency_ms,
                states@[j].pick_count,
            ),
        rng is None ==> forall|j: int|
            0 <= j < picked.0 ==> picked.1 < response_score(
                (#[trigger] servers@[j]).base_latency_ms,
                states@[j].pick_count,
            ),
        least_positions(config_scores(servers@, states@)).len() == 1 ==> (rng matches Some(
            stream,
        ) ==> *final(stream) == *stream),
{
    let mut scores: Vec<u64> = Vec::new();
    let mut k: usize = 0;
    while k < servers.len()
        invariant
            k <= servers.len() <= states.len(),
            scores@ == config_scores(servers@, states@).take(k as int),
            forall|i: int|
                0 <= i < servers.len() ==> response_score(
                    (#[trigger] servers@[i]).base_latency_ms,
                    states@[i].pick_count,
                ) <= u64::MAX,
        decreases servers.len() - k,
    {
        assert(response_score(servers@[k as int].base_latency_ms, states@[k as int].pick_count)
            <= u64::MAX);
        let score: u64 = servers[k].base_latency_ms + (states[k].pick_count as u64) * 10;
        scores.push(score);
        proof {
            assert(scores@ =~= config_scores(servers@, states@).take(k as int + 1));
        }
        k += 1;
    }
    proof {
        assert(scores@ =~= config_scores(servers@, states@));
        lemma_least_positions_exact(scores@);
    }
    let candidates: Vec<usize> = find_least_positions(&scores);
    let idx: usize = pick_index(candidates.as_slice(), rng);
    proof {
        let at = choose|at: int| 0 <= at < candidates@.len() && candidates@[at] == idx;
        assert(idx == least_positions(scores@)[at]);
        assert forall|j: int| 0 <= j < servers.len() implies scores@[idx as int]
            <= response_score((#[trigger] servers@[j]).base_latency_ms, states@[j].pick_count) by {
            assert(scores@[idx as int] <= scores@[j]);
        }
        if rng is None {
            assert forall|j: int| 0 <= j < idx implies scores@[idx as int] < response_score(
                (#[trigger] servers@[j]).base_latency_ms,
                states@[j].pick_count,
            ) by {
                assert(scores@[j] > scores@[idx as int]);
            }
        }
    }
    (idx, scores[idx])
}

} // verus!
