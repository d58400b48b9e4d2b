//! Least response time: the server with the lowest load-penalised latency.

use vstd::prelude::*;
use crate::algorithms::{
    find_least_positions, least_positions, pick_index, response_score, state_scores, tie_choice,
    Selection, SelectionContext, SelectionStrategy, StrategyModel,
};
use crate::state::ServerState;

verus! {

/// Chooses a server with the lowest score, where a score is the base latency
/// plus 10 ms for every earlier pick; ties go to the tie-break rule. The
/// winning score is reported with the choice.
#[derive(Clone, Copy, Debug, Default)]
pub struct LeastResponseTimeStrategy;

impl SelectionStrategy for LeastResponseTimeStrategy {
    open spec fn admits(&self, servers: Seq<ServerState>) -> bool {
        StrategyModel::LeastResponseTime.admits(servers)
    }

    open spec fn choice(&self, servers: Seq<ServerState>, stable: bool, draw: int) -> Selection {
        StrategyModel::LeastResponseTime.choice(servers, stable, draw)
    }

    /// The tie-break stream is consulted only for a real tie.
    fn select(&mut self, ctx: &mut SelectionContext<'_>) -> (selection: Selection)
        ensures
            least_positions(state_scores(old(ctx).servers@)).len() == 1 ==> (old(ctx).rng matches Some(
                before,
            ) ==> final(ctx).rng matches Some(later) && *later == *before),
    {
        let servers = ctx.servers;
        let mut scores: Vec<u64> = Vec::new();
        let mut k: usize = 0;
        while k < servers.len()
            invariant
                k <= servers.len(),
                scores@ == state_scores(servers@).take(k as int),
                self.admits(servers@),
            decreases servers.len() - k,
        {
            assert(response_score(servers@[k as int].base_latency_ms, servers@[k as int].pick_count)
                <= u64::MAX);
            let score: u64 = servers[k].base_latency_ms + (servers[k].pick_count as u64) * 10;
            scores.push(score);
            proof {
                assert(scores@ =~= state_scores(servers@).take(k as int + 1));
            }
            k += 1;
        }
        proof {
            assert(scores@ =~= state_scores(servers@));
            crate::algorithms::lemma_least_positions_exact(scores@);
        }
        let candidates: Vec<usize> = find_least_positions(&scores);
        let idx: usize = match &mut ctx.rng {
            Some(stream) => pick_index(candidates.as_slice(), Some(stream)),
            None => pick_index(candidates.as_slice(), None),
        };
        proof {
            let at = choose|at: int| 0 <= at < candidates@.len() && candidates@[at] == idx;
            assert(idx == least_positions(scores@)[at]);
        }
        let selection = Selection { server_id: idx, score: Some(scores[idx]) };
        proof {
            let draw = choose|draw: int|
                idx == #[trigger] tie_choice(candidates@, old(ctx).rng is None, draw);
            assert(selection == old(self).choice(old(ctx).servers@, old(ctx).rng is None, draw));
        }
        selection
    }
}

} // verus!
