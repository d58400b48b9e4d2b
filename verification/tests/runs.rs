use lb_sim::algorithms::build_strategy;
use lb_sim::engine::{init_server_state, run_simulation, try_run_simulation, SimulationEngine};
use lb_sim::limits::within_limits;
use lb_sim::validation::validate_config;
use lb_sim::error::SimError;
use lb_sim::metrics::Ratio;
use lb_sim::models::{AlgoConfig, RequestProfile, ServerConfig, SimConfig, TieBreakConfig};
use lb_sim::state::SimulationResult;
use rand::rngs::StdRng;
use rand::SeedableRng;

fn server(name: &str, base_latency_ms: u64, weight: u32) -> ServerConfig {
    ServerConfig { name: name.to_string(), base_latency_ms, weight }
}

fn config(servers: Vec<ServerConfig>, requests: RequestProfile, algo: AlgoConfig) -> SimConfig {
    SimConfig {
        servers,
        requests,
        algo,
        tie_break: TieBreakConfig::Stable,
        seed: None,
        store_assignments: true,
        serialized_service: false,
    }
}

fn three_servers() -> Vec<ServerConfig> {
    vec![server("a", 10, 1), server("b", 20, 1), server("c", 30, 1)]
}

fn routes(result: &SimulationResult) -> Vec<usize> {
    result.assignments.iter().map(|assignment| assignment.server_id).collect()
}

fn history(result: &SimulationResult) -> Vec<(usize, usize, String, u64, u64, u64, Option<u64>)> {
    result
        .assignments
        .iter()
        .map(|a| {
            (
                a.request_id,
                a.server_id,
                a.server_name.clone(),
                a.arrival_time_ms,
                a.started_at,
                a.completed_at,
                a.score,
            )
        })
        .collect()
}

#[test]
fn round_robin_visits_servers_in_cyclic_order() {
    let result =
        run_simulation(&config(three_servers(), RequestProfile::FixedCount(7), AlgoConfig::RoundRobin))
            .unwrap();
    assert_eq!(routes(&result), vec![0, 1, 2, 0, 1, 2, 0]);
    let counts: Vec<u32> = result.totals.iter().map(|summary| summary.requests).collect();
    assert_eq!(counts, vec![3, 2, 2]);
    let averages: Vec<u64> = result.totals.iter().map(|summary| summary.avg_response_ms).collect();
    assert_eq!(averages, vec![10, 20, 30]);
    let ids: Vec<usize> = result.assignments.iter().map(|a| a.request_id).collect();
    assert_eq!(ids, vec![1, 2, 3, 4, 5, 6, 7]);
    let names: Vec<&str> = result.assignments.iter().map(|a| a.server_name.as_str()).collect();
    assert_eq!(names, vec!["a", "b", "c", "a", "b", "c", "a"]);
}

#[test]
fn a_run_reports_metadata_and_metrics() {
    let result =
        run_simulation(&config(three_servers(), RequestProfile::FixedCount(7), AlgoConfig::RoundRobin))
            .unwrap();
    assert_eq!(result.metadata.algo, "round-robin");
    assert_eq!(result.metadata.tie_break, "stable");
    assert_eq!(result.metadata.duration_ms, 35);
    assert_eq!(result.metrics.p95_response_ms, Some(30));
    assert_eq!(result.metrics.p99_response_ms, Some(30));
    assert_eq!(result.metrics.fairness, Ratio { num: 49, den: 51 });
    assert_eq!(result.metrics.utilization, vec![8571, 11429, 17143]);
    assert_eq!(result.metrics.throughput_rps, Ratio { num: 7000, den: 35 });
    assert_eq!(result.metrics.avg_wait_ms, Ratio { num: 0, den: 7 });
}

#[test]
fn totals_count_every_request_once() {
    for algo in [
        AlgoConfig::RoundRobin,
        AlgoConfig::WeightedRoundRobin,
        AlgoConfig::LeastConnections,
        AlgoConfig::LeastResponseTime,
    ] {
        for count in [1usize, 2, 5, 40] {
            for serialized in [false, true] {
                let mut run = config(
                    vec![server("a", 3, 2), server("b", 7, 1), server("c", 1, 5)],
                    RequestProfile::FixedCount(count),
                    algo,
                );
                run.serialized_service = serialized;
                run.tie_break = TieBreakConfig::Seeded;
                run.seed = Some(count as u64);
                let result = run_simulation(&run).unwrap();
                let total: u64 = result.totals.iter().map(|summary| summary.requests as u64).sum();
                assert_eq!(total, count as u64);
                assert_eq!(result.assignments.len(), count);
                for assignment in &result.assignments {
                    assert!(assignment.arrival_time_ms <= assignment.started_at);
                    assert!(assignment.started_at < assignment.completed_at);
                    assert_eq!(assignment.server_name, run.servers[assignment.server_id].name);
                }
            }
        }
    }
}

#[test]
fn serialized_service_makes_requests_wait() {
    let mut run =
        config(vec![server("api", 5, 1)], RequestProfile::FixedCount(3), AlgoConfig::RoundRobin);
    run.serialized_service = true;
    let result = run_simulation(&run).unwrap();
    let times: Vec<(u64, u64, u64)> = result
        .assignments
        .iter()
        .map(|a| (a.arrival_time_ms, a.started_at, a.completed_at))
        .collect();
    assert_eq!(times, vec![(0, 0, 5), (1, 5, 10), (2, 10, 15)]);
    assert_eq!(result.totals[0].avg_response_ms, 9);
    assert_eq!(result.metrics.avg_wait_ms, Ratio { num: 12, den: 3 });
    assert_eq!(result.metrics.utilization, vec![10000]);
    assert_eq!(result.metadata.duration_ms, 15);
}

#[test]
fn a_delayed_burst_is_measured_from_its_arrival() {
    let run = config(
        vec![server("a", 10, 1), server("b", 30, 1)],
        RequestProfile::Burst { count: 3, at_ms: 100 },
        AlgoConfig::LeastConnections,
    );
    let result = run_simulation(&run).unwrap();
    assert_eq!(routes(&result), vec![0, 1, 0]);
    assert_eq!(result.metadata.duration_ms, 130);
    assert_eq!(result.metrics.throughput_rps, Ratio { num: 3000, den: 30 });
    assert_eq!(result.metrics.utilization, vec![6667, 10000]);
    assert_eq!(result.metrics.p95_response_ms, Some(30));
}

#[test]
fn summary_only_runs_keep_the_metrics() {
    let full = config(three_servers(), RequestProfile::FixedCount(9), AlgoConfig::LeastConnections);
    let mut brief =
        config(three_servers(), RequestProfile::FixedCount(9), AlgoConfig::LeastConnections);
    brief.store_assignments = false;
    let full = run_simulation(&full).unwrap();
    let brief = run_simulation(&brief).unwrap();
    assert_eq!(full.assignments.len(), 9);
    assert!(brief.assignments.is_empty());
    for (one, other) in full.totals.iter().zip(brief.totals.iter()) {
        assert_eq!(one.name, other.name);
        assert_eq!(one.requests, other.requests);
        assert_eq!(one.avg_response_ms, other.avg_response_ms);
    }
    assert_eq!(full.metadata.duration_ms, brief.metadata.duration_ms);
    assert_eq!(full.metrics.p95_response_ms, brief.metrics.p95_response_ms);
    assert_eq!(full.metrics.p99_response_ms, brief.metrics.p99_response_ms);
    assert_eq!(full.metrics.fairness, brief.metrics.fairness);
    assert_eq!(full.metrics.utilization, brief.metrics.utilization);
    assert_eq!(full.metrics.throughput_rps, brief.metrics.throughput_rps);
    assert_eq!(full.metrics.avg_wait_ms, brief.metrics.avg_wait_ms);
}

#[test]
fn the_same_configuration_gives_the_same_history() {
    for tie_break in [TieBreakConfig::Stable, TieBreakConfig::Seeded] {
        for algo in [AlgoConfig::LeastConnections, AlgoConfig::LeastResponseTime] {
            let mut run = config(
                vec![server("a", 4, 1), server("b", 4, 1), server("c", 4, 1), server("d", 4, 1)],
                RequestProfile::FixedCount(60),
                algo,
            );
            run.tie_break = tie_break;
            run.seed = Some(2024);
            let one = run_simulation(&run).unwrap();
            let other = run_simulation(&run).unwrap();
            assert_eq!(history(&one), history(&other));
            assert_eq!(one.metrics.utilization, other.metrics.utilization);
        }
    }
}

#[test]
fn least_response_time_reports_the_winning_score() {
    let run = config(
        vec![server("a", 10, 1), server("b", 10, 1)],
        RequestProfile::FixedCount(3),
        AlgoConfig::LeastResponseTime,
    );
    let result = run_simulation(&run).unwrap();
    assert_eq!(routes(&result), vec![0, 1, 0]);
    let scores: Vec<Option<u64>> = result.assignments.iter().map(|a| a.score).collect();
    assert_eq!(scores, vec![Some(10), Some(10), Some(20)]);
    assert_eq!(result.metadata.algo, "least-response-time");
}

#[test]
fn weighted_round_robin_follows_the_weights() {
    let run = config(
        vec![server("a", 10, 2), server("b", 10, 1)],
        RequestProfile::FixedCount(6),
        AlgoConfig::WeightedRoundRobin,
    );
    let result = run_simulation(&run).unwrap();
    assert_eq!(routes(&result), vec![0, 0, 1, 0, 0, 1]);
    assert_eq!(result.metadata.algo, "weighted-round-robin");
}

#[test]
fn sampled_arrivals_are_processed_in_order_of_time() {
    let run = config(
        vec![server("a", 1, 1), server("b", 1, 1)],
        RequestProfile::Poisson { duration_ms: 10, arrivals_ms: vec![5, 2, 9, 2] },
        AlgoConfig::RoundRobin,
    );
    let result = run_simulation(&run).unwrap();
    let ids: Vec<usize> = result.assignments.iter().map(|a| a.request_id).collect();
    assert_eq!(ids, vec![2, 4, 1, 3]);
    assert_eq!(routes(&result), vec![0, 1, 0, 1]);
}

#[test]
fn a_completion_frees_the_server_before_an_arrival_at_the_same_instant() {
    let run = config(
        vec![server("fast", 1, 1), server("slow", 100, 1)],
        RequestProfile::FixedCount(5),
        AlgoConfig::LeastConnections,
    );
    let result = run_simulation(&run).unwrap();
    assert_eq!(routes(&result), vec![0, 0, 0, 0, 0]);
}

#[test]
fn seeded_label_names_the_seed() {
    let mut run = config(three_servers(), RequestProfile::FixedCount(1), AlgoConfig::RoundRobin);
    run.tie_break = TieBreakConfig::Seeded;
    run.seed = Some(42);
    let result = run_simulation(&run).unwrap();
    assert_eq!(result.metadata.tie_break, "seeded(42)");
    assert_eq!(TieBreakConfig::Seeded.label_with_seed(None), "seeded(0)");
    assert_eq!(TieBreakConfig::Stable.label_with_seed(Some(3)), "stable");
    assert_eq!(AlgoConfig::LeastConnections.label(), "least-connections");
}

#[test]
fn invalid_configurations_are_refused_with_the_first_violation() {
    let valid = || config(three_servers(), RequestProfile::FixedCount(1), AlgoConfig::RoundRobin);

    let mut run = valid();
    run.servers.clear();
    run.requests = RequestProfile::FixedCount(0);
    assert!(matches!(run_simulation(&run), Err(SimError::EmptyServers)));

    let mut run = valid();
    run.servers[1] = server(" \t", 0, 0);
    assert!(matches!(run_simulation(&run), Err(SimError::InvalidServerEntry(name)) if name == " \t"));

    let mut run = valid();
    run.servers[1] = server("b", 0, 0);
    assert!(matches!(run_simulation(&run), Err(SimError::InvalidLatencyValue(name)) if name == "b"));

    let mut run = valid();
    run.servers[2] = server("a", 5, 0);
    assert!(matches!(run_simulation(&run), Err(SimError::InvalidWeightValue(name)) if name == "a"));

    let mut run = valid();
    run.servers[2] = server("a", 5, 1);
    run.requests = RequestProfile::FixedCount(0);
    assert!(matches!(run_simulation(&run), Err(SimError::DuplicateServerName(name)) if name == "a"));

    let mut run = valid();
    run.requests = RequestProfile::FixedCount(0);
    run.tie_break = TieBreakConfig::Seeded;
    assert!(matches!(run_simulation(&run), Err(SimError::RequestsZero)));
    assert!(matches!(validate_config(&run), Err(SimError::RequestsZero)));

    let mut run = valid();
    run.requests = RequestProfile::Burst { count: 0, at_ms: 9 };
    assert!(matches!(run_simulation(&run), Err(SimError::RequestsZero)));

    let mut run = valid();
    run.requests = RequestProfile::Poisson { duration_ms: 0, arrivals_ms: vec![1] };
    assert!(matches!(run_simulation(&run), Err(SimError::InvalidRequestDuration(0))));

    let mut run = valid();
    run.tie_break = TieBreakConfig::Seeded;
    assert!(matches!(run_simulation(&run), Err(SimError::InvalidTieBreakSeed)));

    let mut run = valid();
    run.requests = RequestProfile::Poisson { duration_ms: 4, arrivals_ms: Vec::new() };
    run.tie_break = TieBreakConfig::Seeded;
    assert!(validate_config(&run).is_err());
    assert!(matches!(run_simulation(&run), Err(SimError::InvalidTieBreakSeed)));
    run.seed = Some(1);
    assert!(validate_config(&run).is_ok());
    assert!(matches!(run_simulation(&run), Err(SimError::RequestsZero)));
}

#[test]
fn server_state_starts_at_zero() {
    let states = init_server_state(&three_servers());
    assert_eq!(states.len(), 3);
    for (index, state) in states.iter().enumerate() {
        assert_eq!(state.id, index);
        assert_eq!(state.active_connections, 0);
        assert_eq!(state.pick_count, 0);
        assert_eq!(state.in_flight, 0);
        assert_eq!(state.next_available_ms, 0);
    }
    assert_eq!(states[1].name, "b");
    assert_eq!(states[1].base_latency_ms, 20);
    assert_eq!(states[2].weight, 1);
}

#[test]
fn an_engine_ends_with_every_connection_closed() {
    let run = config(three_servers(), RequestProfile::FixedCount(8), AlgoConfig::LeastConnections);
    let mut engine = SimulationEngine::new(run, build_strategy(AlgoConfig::LeastConnections));
    assert_eq!(engine.state.time_ms, 0);
    assert!(engine.state.servers.is_empty());
    let result = engine.run().unwrap();
    assert_eq!(engine.state.servers.len(), 3);
    let picks: Vec<u32> = engine.state.servers.iter().map(|state| state.pick_count).collect();
    let counts: Vec<u32> = result.totals.iter().map(|summary| summary.requests).collect();
    assert_eq!(picks, counts);
    for state in &engine.state.servers {
        assert_eq!(state.active_connections, 0);
        assert_eq!(state.in_flight, 0);
    }
    assert_eq!(engine.state.time_ms, result.metadata.duration_ms);
    assert_eq!(engine.state.assignments.len(), 8);
    assert_eq!(engine.config.servers.len(), 3);
}

#[test]
fn an_engine_follows_its_strategy() {
    let run = config(three_servers(), RequestProfile::FixedCount(4), AlgoConfig::LeastConnections);
    let mut engine = SimulationEngine::new(run, build_strategy(AlgoConfig::RoundRobin));
    let result = engine.run().unwrap();
    assert_eq!(routes(&result), vec![0, 1, 2, 0]);
    assert_eq!(result.metadata.algo, "least-connections");
}

#[test]
fn limits_follow_the_size_of_the_run() {
    let small = config(three_servers(), RequestProfile::FixedCount(5), AlgoConfig::RoundRobin);
    assert!(within_limits(&small));

    let mut slow = config(
        vec![server("a", u64::MAX, 1)],
        RequestProfile::FixedCount(1),
        AlgoConfig::RoundRobin,
    );
    assert!(within_limits(&slow));
    slow.requests = RequestProfile::FixedCount(2);
    assert!(!within_limits(&slow));
    slow.requests = RequestProfile::Burst { count: 2, at_ms: 0 };
    assert!(within_limits(&slow));
    slow.serialized_service = true;
    assert!(!within_limits(&slow));

    let mut scored = config(
        vec![server("a", u64::MAX - 20, 1)],
        RequestProfile::Burst { count: 2, at_ms: 0 },
        AlgoConfig::LeastResponseTime,
    );
    assert!(within_limits(&scored));
    scored.requests = RequestProfile::Burst { count: 3, at_ms: 0 };
    assert!(!within_limits(&scored));
    scored.algo = AlgoConfig::LeastConnections;
    assert!(within_limits(&scored));

    let many = config(
        three_servers(),
        RequestProfile::FixedCount(u32::MAX as usize + 1),
        AlgoConfig::RoundRobin,
    );
    assert!(!within_limits(&many));
    let most =
        config(three_servers(), RequestProfile::FixedCount(u32::MAX as usize), AlgoConfig::RoundRobin);
    assert!(within_limits(&most));

    let late = config(
        three_servers(),
        RequestProfile::Poisson { duration_ms: u64::MAX, arrivals_ms: vec![3, u64::MAX - 29, 7] },
        AlgoConfig::RoundRobin,
    );
    assert!(!within_limits(&late));
    let in_time = config(
        three_servers(),
        RequestProfile::Poisson { duration_ms: u64::MAX, arrivals_ms: vec![3, u64::MAX - 30, 7] },
        AlgoConfig::RoundRobin,
    );
    assert!(within_limits(&in_time));
}

#[test]
fn a_run_at_the_limit_of_time_completes() {
    let run = config(
        vec![server("a", 30, 1)],
        RequestProfile::Poisson { duration_ms: u64::MAX, arrivals_ms: vec![u64::MAX - 30] },
        AlgoConfig::RoundRobin,
    );
    assert!(within_limits(&run));
    let result = run_simulation(&run).unwrap();
    assert_eq!(result.metadata.duration_ms, u64::MAX);
    assert_eq!(result.metrics.throughput_rps, Ratio { num: 1000, den: 30 });
}

#[test]
fn runs_beyond_the_limits_are_not_started() {
    let mut slow = config(
        vec![server("a", u64::MAX, 1)],
        RequestProfile::FixedCount(2),
        AlgoConfig::RoundRobin,
    );
    assert!(try_run_simulation(&slow).is_none());
    slow.servers.push(server("a", 1, 1));
    assert!(matches!(
        try_run_simulation(&slow),
        Some(Err(SimError::DuplicateServerName(name))) if name == "a"
    ));
    let late = config(
        three_servers(),
        RequestProfile::Poisson { duration_ms: 0, arrivals_ms: vec![u64::MAX] },
        AlgoConfig::RoundRobin,
    );
    assert!(matches!(try_run_simulation(&late), Some(Err(SimError::InvalidRequestDuration(0)))));
    let none = config(
        vec![server("a", u64::MAX, 1)],
        RequestProfile::Poisson { duration_ms: 1, arrivals_ms: Vec::new() },
        AlgoConfig::RoundRobin,
    );
    assert!(matches!(try_run_simulation(&none), Some(Err(SimError::RequestsZero))));
    let fine = config(three_servers(), RequestProfile::FixedCount(2), AlgoConfig::RoundRobin);
    let result = try_run_simulation(&fine).unwrap().unwrap();
    assert_eq!(routes(&result), vec![0, 1]);
}

#[test]
fn the_stream_is_consulted_only_for_ties() {
    for algo in [AlgoConfig::RoundRobin, AlgoConfig::WeightedRoundRobin] {
        let mut run = config(three_servers(), RequestProfile::FixedCount(9), algo);
        run.tie_break = TieBreakConfig::Seeded;
        run.seed = Some(5);
        let mut engine = SimulationEngine::new(run, build_strategy(algo));
        assert!(!engine.strategy.breaks_ties());
        engine.run().unwrap();
        assert_eq!(engine.rng, StdRng::seed_from_u64(5));
    }
    for algo in [AlgoConfig::LeastConnections, AlgoConfig::LeastResponseTime] {
        let mut run = config(three_servers(), RequestProfile::FixedCount(9), algo);
        run.seed = Some(5);
        let mut engine = SimulationEngine::new(run, build_strategy(algo));
        assert!(engine.strategy.breaks_ties());
        engine.run().unwrap();
        assert_eq!(engine.rng, StdRng::seed_from_u64(0));
    }
    let mut tied = config(
        vec![server("a", 50, 1), server("b", 50, 1)],
        RequestProfile::FixedCount(4),
        AlgoConfig::LeastConnections,
    );
    tied.tie_break = TieBreakConfig::Seeded;
    tied.seed = Some(5);
    let mut engine = SimulationEngine::new(tied, build_strategy(AlgoConfig::LeastConnections));
    engine.run().unwrap();
    assert_ne!(engine.rng, StdRng::seed_from_u64(5));
    let mut apart = config(
        vec![server("a", 1, 1)],
        RequestProfile::FixedCount(4),
        AlgoConfig::LeastConnections,
    );
    apart.tie_break = TieBreakConfig::Seeded;
    apart.seed = Some(5);
    let mut engine = SimulationEngine::new(apart, build_strategy(AlgoConfig::LeastConnections));
    engine.run().unwrap();
    assert_eq!(engine.rng, StdRng::seed_from_u64(5));
}
