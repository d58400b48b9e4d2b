//! What the engine keeps while it runs, and what it reports.

use vstd::prelude::*;
use crate::metrics::Metrics;

verus! {

/// Per-server counters, owned by the engine for one run.
#[derive(Clone, Debug)]
pub struct ServerState {
    pub id: usize,
    pub name: String,
    pub base_latency_ms: u64,
    pub weight: u32,
    pub active_connections: u32,
    pub pick_count: u32,
    pub in_flight: u32,
    pub next_available_ms: u64,
}

/// One routed request.
#[derive(Clone, Debug)]
pub struct Assignment {
    pub request_id: usize,
    pub server_id: usize,
    pub server_name: String,
    pub arrival_time_ms: u64,
    pub started_at: u64,
    pub completed_at: u64,
    pub score: Option<u64>,
}

/// The engine's clock, servers and history.
#[derive(Clone, Debug)]
pub struct EngineState {
    pub time_ms: u64,
    pub servers: Vec<ServerState>,
    pub assignments: Vec<Assignment>,
}

/// One line of the per-server summary.
#[derive(Clone, Debug)]
pub struct ServerSummary {
    pub name: String,
    pub requests: u32,
    pub avg_response_ms: u64,
}

/// How the run was configured and how long it took.
#[derive(Clone, Debug)]
pub struct RunMetadata {
    pub algo: String,
    pub tie_break: String,
    pub duration_ms: u64,
}

/// What a run reports.
#[derive(Clone, Debug)]
pub struct SimulationResult {
    /// The routed requests in processing order; empty when the history was
    /// not asked for.
    pub assignments: Vec<Assignment>,
    /// One summary per server, in input order.
    pub totals: Vec<ServerSummary>,
    pub metadata: RunMetadata,
    pub metrics: Metrics,
}

impl Assignment {
    /// Time from arrival to completion.
    pub open spec fn response_ms(self) -> int {
        self.completed_at - self.arrival_time_ms
    }

    /// Time spent waiting before service began.
    pub open spec fn wait_ms(self) -> int {
        if self.started_at >= self.arrival_time_ms {
            self.started_at - self.arrival_time_ms
        } else {
            0
        }
    }

    /// Time spent in service.
    pub open spec fn service_ms(self) -> int {
        self.completed_at - self.started_at
    }

    /// The times are in order: arrival, start of service, completion.
    pub open spec fn timely(self) -> bool {
        self.arrival_time_ms <= self.started_at <= self.completed_at
    }
}

} // verus!
