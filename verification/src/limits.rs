//! Machine limits: which runs stay within the integers of the machine.

use vstd::prelude::*;
use crate::algorithms::{config_weights, total_weight, weight_sum, StrategyModel};
use crate::engine::rules_of;
use crate::machine::{within_machine_limits, Bounds};
use crate::models::{AlgoConfig, RequestProfile, ServerConfig, SimConfig};
use crate::requests::profile_arrivals;

verus! {

/// The latest of the first `upto` arrival instants; 0 where there is none.
pub open spec fn latest_of(arrivals_ms: Seq<u64>, upto: int) -> int
    decreases upto,
{
    if upto <= 0 {
        0
    } else {
        let earlier = latest_of(arrivals_ms, upto - 1);
        if arrivals_ms[upto - 1] > earlier {
            arrivals_ms[upto - 1] as int
        } else {
            earlier
        }
    }
}

/// The highest base latency among the first `upto` servers; 0 where there is none.
pub open spec fn slowest_of(servers: Seq<ServerConfig>, upto: int) -> int
    decreases upto,
{
    if upto <= 0 {
        0
    } else {
        let earlier = slowest_of(servers, upto - 1);
        if servers[upto - 1].base_latency_ms > earlier {
            servers[upto - 1].base_latency_ms as int
        } else {
            earlier
        }
    }
}

/// The sizes of the run that a configuration asks for.
pub open spec fn bounds_of(config: SimConfig) -> Bounds {
    let arrivals = profile_arrivals(config.requests);
    Bounds {
        requests: arrivals.len() as int,
        last_arrival_ms: latest_of(arrivals, arrivals.len() as int),
        slowest_ms: slowest_of(config.servers@, config.servers@.len() as int),
    }
}

/// The run that a configuration asks for stays within the machine's
/// integers: see `within_machine_limits`; for the weighted policy the
/// weights, too, add up to no more than 64 bits.
pub open spec fn run_fits(config: SimConfig, strategy: StrategyModel) -> bool {
    &&& within_machine_limits(bounds_of(config), rules_of(config), strategy)
    &&& strategy is WeightedRoundRobin ==> total_weight(config_weights(config.servers@))
        <= u64::MAX
}

/// No server is slower than the slowest.
pub proof fn lemma_slowest_bounds(servers: Seq<ServerConfig>, upto: int)
    requires
        0 <= upto <= servers.len(),
    ensures
        0 <= slowest_of(servers, upto),
        forall|i: int| 0 <= i < upto ==> (#[trigger] servers[i]).base_latency_ms <= slowest_of(servers, upto),
    decreases upto,
{
    if upto > 0 {
        lemma_slowest_bounds(servers, upto - 1);
    }
}

/// No arrival is later than the latest.
pub proof fn lemma_latest_bounds(arrivals_ms: Seq<u64>, upto: int)
    requires
        0 <= upto <= arrivals_ms.len(),
    ensures
        0 <= latest_of(arrivals_ms, upto),
        forall|i: int| 0 <= i < upto ==> #[trigger] arrivals_ms[i] <= latest_of(arrivals_ms, upto),
    decreases upto,
{
    if upto > 0 {
        lemma_latest_bounds(arrivals_ms, upto - 1);
    }
}

proof fn lemma_latest_of_counting(arrivals_ms: Seq<u64>, upto: int)
    requires
        0 <= upto <= arrivals_ms.len(),
        forall|i: int| 0 <= i < arrivals_ms.len() ==> arrivals_ms[i] == i,
    ensures
        latest_of(arrivals_ms, upto) == if upto > 0 {
            upto - 1
        } else {
            0
        },
    decreases upto,
{
    if upto > 0 {
        lemma_latest_of_counting(arrivals_ms, upto - 1);
    }
}

proof fn lemma_latest_of_burst(arrivals_ms: Seq<u64>, at_ms: u64, upto: int)
    requires
        0 <= upto <= arrivals_ms.len(),
        forall|i: int| 0 <= i < arrivals_ms.len() ==> arrivals_ms[i] == at_ms,
    ensures
        latest_of(arrivals_ms, upto) == if upto > 0 {
            at_ms as int
        } else {
            0
        },
    decreases upto,
{
    if upto > 0 {
        lemma_latest_of_burst(arrivals_ms, at_ms, upto - 1);
    }
}

proof fn lemma_weight_sum_bounded(weights: Seq<u32>, upto: int)
    requires
        0 <= upto,
    ensures
        0 <= weight_sum(weights, upto) <= upto * u32::MAX,
    decreases upto,
{
    if upto > 0 {
        lemma_weight_sum_bounded(weights, upto - 1);
        assert((upto - 1) * u32::MAX + u32::MAX == upto * u32::MAX) by (nonlinear_arith);
    } else {
        assert(upto * u32::MAX == 0) by (nonlinear_arith)
            requires
                upto == 0,
        ;
    }
}

/// Whether the run that a configuration asks for, with a fresh strategy,
/// stays within the machine's integers.
pub fn within_limits(config: &SimConfig) -> (fits: bool)
    ensures
        fits == run_fits(*config, StrategyModel::fresh(config.algo)),
{
    let ghost arrivals = profile_arrivals(config.requests);
    let ghost servers = config.servers@;
    let (count, last): (usize, u64) = match &config.requests {
        RequestProfile::FixedCount(count) => {
            proof {
                lemma_latest_of_counting(arrivals, arrivals.len() as int);
            }
            (
                *count,
                if *count > 0 {
                    (*count - 1) as u64
                } else {
                    0
                },
            )
        },
        RequestProfile::Burst { count, at_ms } => {
            proof {
                lemma_latest_of_burst(arrivals, *at_ms, arrivals.len() as int);
            }
            (
                *count,
                if *count > 0 {
                    *at_ms
                } else {
                    0
                },
            )
        },
        RequestProfile::Poisson { duration_ms, arrivals_ms } => {
            let mut last: u64 = 0;
            let mut k: usize = 0;
            while k < arrivals_ms.len()
                invariant
                    k <= arrivals_ms.len(),
                    last == latest_of(arrivals_ms@, k as int),
                decreases arrivals_ms.len() - k,
            {
                if arrivals_ms[k] > last {
                    last = arrivals_ms[k];
                }
                k += 1;
            }
            (arrivals_ms.len(), last)
        },
    };
    let mut slowest: u64 = 0;
    let mut total: u128 = 0;
    let mut k: usize = 0;
    while k < config.servers.len()
        invariant
            k <= config.servers.len(),
            servers == config.servers@,
            slowest == slowest_of(servers, k as int),
            total == weight_sum(config_weights(servers), k as int),
        decreases config.servers.len() - k,
    {
        proof {
            lemma_weight_sum_bounded(config_weights(servers), k as int);
            assert(k * u32::MAX + u32::MAX <= u128::MAX) by (nonlinear_arith)
                requires
                    0 <= k <= 0xffff_ffff_ffff_ffff,
                    u32::MAX == 0xffff_ffff,
                    u128::MAX == 0xffff_ffff_ffff_ffff_ffff_ffff_ffff_ffff,
            ;
        }
        if config.servers[k].base_latency_ms > slowest {
            slowest = config.servers[k].base_latency_ms;
        }
        total = total + config.servers[k].weight as u128;
        k += 1;
    }
    if count > 0xffff_ffff {
        return false;
    }
    let factor: u128 = if config.serialized_service {
        count as u128
    } else {
        1
    };
    proof {
        assert(factor * slowest <= 0xffff_ffff * 0xffff_ffff_ffff_ffff) by (nonlinear_arith)
            requires
                0 <= factor <= 0xffff_ffff,
                0 <= slowest <= 0xffff_ffff_ffff_ffff,
        ;
    }
    if (last as u128) + factor * (slowest as u128) > 0xffff_ffff_ffff_ffff {
        return false;
    }
    match config.algo {
        AlgoConfig::LeastResponseTime => {
            if (slowest as u128) + 10 * (count as u128) > 0xffff_ffff_ffff_ffff {
                return false;
            }
        },
        AlgoConfig::WeightedRoundRobin => {
            if total > 0xffff_ffff_ffff_ffff {
                return false;
            }
        },
        _ => {},
    }
    true
}

} // verus!
