//! Round robin: each server in turn.

use vstd::prelude::*;
use crate::algorithms::{
    pick_round_robin, Selection, SelectionContext, SelectionStrategy, StrategyModel,
};
use crate::state::ServerState;

verus! {

/// Hands out the servers in cyclic order, starting at index 0.
#[derive(Debug)]
pub struct RoundRobinStrategy {
    next_idx: usize,
}

impl View for RoundRobinStrategy {
    type V = int;

    /// The cursor: the position that the next request is sent to.
    closed spec fn view(&self) -> int {
        self.next_idx as int
    }
}

impl RoundRobinStrategy {
    pub proof fn lemma_cursor_not_negative(&self)
        ensures
            self@ >= 0,
    {
    }
}

impl Default for RoundRobinStrategy {
    fn default() -> (strategy: Self)
        ensures
            strategy@ == 0,
    {
        RoundRobinStrategy { next_idx: 0 }
    }
}

impl SelectionStrategy for RoundRobinStrategy {
    open spec fn admits(&self, servers: Seq<ServerState>) -> bool {
        servers.len() > 0
    }

    open spec fn choice(&self, servers: Seq<ServerState>, stable: bool, draw: int) -> Selection {
        StrategyModel::RoundRobin { next_idx: self@ }.choice(servers, stable, draw)
    }

    /// The tie-break stream is never consulted: there are no ties.
    fn select(&mut self, ctx: &mut SelectionContext<'_>) -> (selection: Selection)
        ensures
            final(self)@ == (old(self)@ + 1) % (old(ctx).servers@.len() as int),
            old(ctx).rng matches Some(before) ==> final(ctx).rng matches Some(later) && *later
                == *before,
    {
        let idx: usize = pick_round_robin(&mut self.next_idx, ctx.servers.len());
        let selection = Selection { server_id: idx, score: None };
        proof {
            assert(selection == old(self).choice(old(ctx).servers@, old(ctx).rng is None, 0));
        }
        selection
    }
}

} // verus!
