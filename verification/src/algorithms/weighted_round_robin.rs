//! Weighted round robin: each server as often as its weight says.

use vstd::prelude::*;
use crate::algorithms::{
    lemma_cursor_step, lemma_weight_sum_grows, state_weights, total_weight, weight_sum,
    Selection, SelectionContext, SelectionStrategy, StrategyModel,
};
use crate::state::ServerState;

verus! {

/// `sums` holds the running totals of `weights`.
pub open spec fn running_totals(weights: Seq<u32>, sums: Seq<u64>) -> bool {
    &&& sums.len() == weights.len()
    &&& forall|i: int| 0 <= i < sums.len() ==> #[trigger] sums[i] == weight_sum(weights, i + 1)
}

/// Slot `target` falls to position `index` of the running totals: the first
/// total that is strictly greater than `target`.
pub open spec fn first_beyond(sums: Seq<u64>, target: int, index: int) -> bool {
    &&& 0 <= index < sums.len()
    &&& target < sums[index]
    &&& forall|j: int| 0 <= j < index ==> #[trigger] sums[j] <= target
}

/// Walks a cycle of as many slots as the weights add up to and gives each
/// slot to the server that owns it, found by bisection over cached running
/// totals. The cache is keyed on the number of servers and rebuilt when that
/// number changes.
#[derive(Debug)]
pub struct WeightedRoundRobinStrategy {
    cursor: u64,
    totals: Vec<u64>,
}

impl WeightedRoundRobinStrategy {
    #[verifier::type_invariant]
    spec fn cache_in_order(&self) -> bool {
        StrategyModel::cache_usable(self.totals@)
    }

    /// The cache of every strategy value can be bisected: nothing to do at
    /// run time, something to know in proofs.
    pub fn confirm_usable(&self)
        ensures
            self.cache_usable(),
    {
        proof {
            use_type_invariant(self);
        }
    }

    /// The position in the cycle that the next request is given.
    pub closed spec fn cursor(&self) -> int {
        self.cursor as int
    }

    /// The cached running totals; empty until the first selection.
    pub closed spec fn cache(&self) -> Seq<u64> {
        self.totals@
    }

    /// The cache, if any, is in ascending order and ends above zero.
    pub open spec fn cache_usable(&self) -> bool {
        StrategyModel::cache_usable(self.cache())
    }

    /// The running totals that a selection among `servers` works with: the
    /// cached ones if they are as many as the servers, fresh ones otherwise.
    pub open spec fn totals_for(&self, servers: Seq<ServerState>) -> Seq<u64> {
        StrategyModel::totals_for(self.cache(), servers)
    }

    pub proof fn lemma_cursor_not_negative(&self)
        ensures
            self.cursor() >= 0,
    {
    }
}

impl Default for WeightedRoundRobinStrategy {
    fn default() -> (strategy: Self)
        ensures
            strategy.cursor() == 0,
            strategy.cache().len() == 0,
            strategy.cache_usable(),
    {
        WeightedRoundRobinStrategy { cursor: 0, totals: Vec::new() }
    }
}

/// Computes the running totals of the servers' weights.
fn build_totals(servers: &[ServerState]) -> (totals: Vec<u64>)
    requires
        total_weight(state_weights(servers@)) <= u64::MAX,
    ensures
        running_totals(state_weights(servers@), totals@),
{
    let ghost weights = state_weights(servers@);
    let mut totals: Vec<u64> = Vec::new();
    let mut reached: u64 = 0;
    let mut k: usize = 0;
    while k < servers.len()
        invariant
            k <= servers.len(),
            weights == state_weights(servers@),
            totals.len() == k,
            reached == weight_sum(weights, k as int),
            forall|i: int| 0 <= i < k ==> #[trigger] totals@[i] == weight_sum(weights, i + 1),
            total_weight(weights) <= u64::MAX,
        decreases servers.len() - k,
    {
        proof {
            lemma_weight_sum_grows(weights, k as int + 1, weights.len() as int);
        }
        reached = reached + servers[k].weight as u64;
        totals.push(reached);
        k += 1;
    }
    totals
}

/// Bisection: the first position whose total is strictly greater than `target`.
fn find_first_beyond(totals: &Vec<u64>, target: u64) -> (index: usize)
    requires
        totals.len() > 0,
        forall|i: int, j: int| 0 <= i <= j < totals.len() ==> totals@[i] <= totals@[j],
        target < totals@.last(),
    ensures
        first_beyond(totals@, target as int, index as int),
{
    let mut low: usize = 0;
    let mut high: usize = totals.len() - 1;
    while low < high
        invariant
            low <= high < totals.len(),
            target < totals@[high as int],
            forall|j: int| 0 <= j < low ==> #[trigger] totals@[j] <= target,
            forall|i: int, j: int| 0 <= i <= j < totals.len() ==> totals@[i] <= totals@[j],
        decreases high - low,
    {
        let mid: usize = low + (high - low) / 2;
        if totals[mid] > target {
            high = mid;
        } else {
            low = mid + 1;
        }
    }
    low
}

impl SelectionStrategy for WeightedRoundRobinStrategy {
    /// A cache that is as long as the server list is trusted as it is; a
    /// server list of another length must have weights that add up to
    /// something above zero that fits 64 bits.
    open spec fn admits(&self, servers: Seq<ServerState>) -> bool {
        &&& servers.len() > 0
        &&& self.cache_usable()
        &&& self.cache().len() != servers.len() ==> 0 < total_weight(state_weights(servers))
            <= u64::MAX
    }

    open spec fn choice(&self, servers: Seq<ServerState>, stable: bool, draw: int) -> Selection {
        StrategyModel::WeightedRoundRobin { cursor: self.cursor(), cache: self.cache() }.choice(
            servers,
            stable,
            draw,
        )
    }

    /// The tie-break stream is never consulted: there are no ties.
    fn select(&mut self, ctx: &mut SelectionContext<'_>) -> (selection: Selection)
        ensures
            final(self).cache() == old(self).totals_for(old(ctx).servers@),
            final(self).cache_usable(),
            first_beyond(
                final(self).cache(),
                old(self).cursor() % (final(self).cache().last() as int),
                selection.server_id as int,
            ),
            final(self).cursor() == (old(self).cursor() + 1) % (final(self).cache().last() as int),
            old(ctx).rng matches Some(before) ==> final(ctx).rng matches Some(later) && *later
                == *before,
    {
        let servers = ctx.servers;
        if self.totals.len() != servers.len() {
            let totals: Vec<u64> = build_totals(servers);
            proof {
                let weights = state_weights(servers@);
                assert(totals@ =~= old(self).totals_for(servers@));
                assert forall|i: int, j: int| 0 <= i <= j < totals@.len() implies totals@[i]
                    <= totals@[j] by {
                    lemma_weight_sum_grows(weights, i + 1, j + 1);
                }
            }
            self.totals = totals;
        }
        let cycle: u64 = self.totals[self.totals.len() - 1];
        let target: u64 = self.cursor % cycle;
        proof {
            lemma_cursor_step(self.cursor as int, cycle as int);
        }
        self.cursor = if target + 1 == cycle {
            0
        } else {
            target + 1
        };
        let index: usize = find_first_beyond(&self.totals, target);
        let selection = Selection { server_id: index, score: None };
        proof {
            let totals = old(self).totals_for(servers@);
            assert forall|other: usize| first_beyond(totals, target as int, other as int) implies other
                == index by {
                if other < index {
                    assert(totals[other as int] <= target);
                } else if index < other {
                    assert(totals[index as int] <= target);
                }
            }
            assert(selection == old(self).choice(old(ctx).servers@, old(ctx).rng is None, 0));
        }
        selection
    }
}

} // verus!
