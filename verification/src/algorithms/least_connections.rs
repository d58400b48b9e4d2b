//! Least connections: the server with the fewest open connections.

use vstd::prelude::*;
use crate::algorithms::{
    connection_counts, least_positions, pick_least_connections, tie_choice, Selection,
    SelectionContext, SelectionStrategy, StrategyModel,
};
use crate::state::ServerState;

verus! {

/// Chooses a server with the fewest open connections; ties go to the
/// tie-break rule.
#[derive(Clone, Copy, Debug, Default)]
pub struct LeastConnectionsStrategy;

impl SelectionStrategy for LeastConnectionsStrategy {
    open spec fn admits(&self, servers: Seq<ServerState>) -> bool {
        servers.len() > 0
    }

    open spec fn choice(&self, servers: Seq<ServerState>, stable: bool, draw: int) -> Selection {
        StrategyModel::LeastConnections.choice(servers, stable, draw)
    }

    /// The tie-break stream is consulted only for a real tie.
    fn select(&mut self, ctx: &mut SelectionContext<'_>) -> (selection: Selection)
        ensures
            least_positions(connection_counts(old(ctx).servers@)).len() == 1 ==> (old(ctx).rng matches Some(
                before,
            ) ==> final(ctx).rng matches Some(later) && *later == *before),
    {
        let idx: usize = match &mut ctx.rng {
            Some(stream) => pick_least_connections(ctx.servers, Some(stream)),
            None => pick_least_connections(ctx.servers, None),
        };
        let selection = Selection { server_id: idx, score: None };
        proof {
            let draw = choose|draw: int|
                idx == #[trigger] tie_choice(
                    least_positions(connection_counts(ctx.servers@)),
                    old(ctx).rng is None,
                    draw,
                );
            assert(selection == old(self).choice(old(ctx).servers@, old(ctx).rng is None, draw));
        }
        selection
    }
}

} // verus!
