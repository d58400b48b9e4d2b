//! What a simulation is configured with.

use vstd::prelude::*;
use vstd::string::StringExecFns;
use crate::text::{decimal, push_decimal};

verus! {

/// One backend server, as supplied by the caller.
#[derive(Clone, Debug)]
pub struct ServerConfig {
    pub name: String,
    pub base_latency_ms: u64,
    pub weight: u32,
}

/// A server configuration as a plain value.
pub struct ServerModel {
    pub name: Seq<char>,
    pub base_latency_ms: u64,
    pub weight: u32,
}

impl View for ServerConfig {
    type V = ServerModel;

    open spec fn view(&self) -> ServerModel {
        ServerModel {
            name: self.name@,
            base_latency_ms: self.base_latency_ms,
            weight: self.weight,
        }
    }
}

/// How requests arrive.
#[derive(Clone, Debug)]
pub enum RequestProfile {
    /// `n` requests, one per millisecond starting at 0.
    FixedCount(usize),
    /// `count` requests that all arrive at `at_ms`.
    Burst { count: usize, at_ms: u64 },
    /// Arrival instants sampled from a Poisson process over `duration_ms`
    /// milliseconds, in the order in which they were drawn.
    Poisson { duration_ms: u64, arrivals_ms: Vec<u64> },
}

/// The selection policy.
#[derive(Clone, Copy, Debug, PartialEq, Eq, Structural)]
pub enum AlgoConfig {
    RoundRobin,
    WeightedRoundRobin,
    LeastConnections,
    LeastResponseTime,
}

/// How ties between equally good servers are resolved.
#[derive(Clone, Copy, Debug, PartialEq, Eq, Structural)]
pub enum TieBreakConfig {
    /// The lowest-index candidate wins.
    Stable,
    /// A candidate is drawn from a stream seeded once per run.
    Seeded,
}

/// A whole run: servers, arrivals, policy and tie-break.
#[derive(Clone, Debug)]
pub struct SimConfig {
    pub servers: Vec<ServerConfig>,
    pub requests: RequestProfile,
    pub algo: AlgoConfig,
    pub tie_break: TieBreakConfig,
    pub seed: Option<u64>,
    /// Keep the per-request history in the result.
    pub store_assignments: bool,
    /// A server works on one request at a time; later ones wait for it.
    pub serialized_service: bool,
}

/// The name of a policy, as it is written in configurations and reports.
pub open spec fn algo_label(algo: AlgoConfig) -> Seq<char> {
    match algo {
        AlgoConfig::RoundRobin => "round-robin"@,
        AlgoConfig::WeightedRoundRobin => "weighted-round-robin"@,
        AlgoConfig::LeastConnections => "least-connections"@,
        AlgoConfig::LeastResponseTime => "least-response-time"@,
    }
}

/// The description of a tie-break rule: `stable`, or `seeded(N)` with the
/// seed, 0 where none is given.
pub open spec fn tie_break_label(tie_break: TieBreakConfig, seed: Option<u64>) -> Seq<char> {
    match tie_break {
        TieBreakConfig::Stable => "stable"@,
        TieBreakConfig::Seeded => "seeded("@ + decimal(
            match seed {
                Some(value) => value as nat,
                None => 0,
            },
        ) + ")"@,
    }
}

impl AlgoConfig {
    pub fn label(&self) -> (text: String)
        ensures
            text@ == algo_label(*self),
    {
        match self {
            AlgoConfig::RoundRobin => String::from_str("round-robin"),
            AlgoConfig::WeightedRoundRobin => String::from_str("weighted-round-robin"),
            AlgoConfig::LeastConnections => String::from_str("least-connections"),
            AlgoConfig::LeastResponseTime => String::from_str("least-response-time"),
        }
    }
}

impl TieBreakConfig {
    pub fn label_with_seed(&self, seed: Option<u64>) -> (text: String)
        ensures
            text@ == tie_break_label(*self, seed),
    {
        match self {
            TieBreakConfig::Stable => String::from_str("stable"),
            TieBreakConfig::Seeded => {
                let value: u64 = match seed {
                    Some(value) => value,
                    None => 0,
                };
                let mut text = String::from_str("seeded(");
                push_decimal(&mut text, value as u128);
                text.append(")");
                text
            },
        }
    }
}

impl Default for TieBreakConfig {
    fn default() -> (tie_break: Self)
        ensures
            tie_break == TieBreakConfig::Stable,
    {
        TieBreakConfig::Stable
    }
}

/// The weight of a server entry that names none.
pub fn default_weight() -> (weight: u32)
    ensures
        weight == 1,
{
    1
}

} // verus!
