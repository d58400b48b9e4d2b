use lb_sim::engine::run_simulation;
use lb_sim::models::{AlgoConfig, RequestProfile, ServerConfig, SimConfig, TieBreakConfig};

fn server(name: &str, base_latency_ms: u64, weight: u32) -> ServerConfig {
    ServerConfig { name: name.to_string(), base_latency_ms, weight }
}

fn config_with_servers(servers: Vec<ServerConfig>) -> SimConfig {
    SimConfig {
        servers,
        requests: RequestProfile::FixedCount(1),
        algo: AlgoConfig::RoundRobin,
        tie_break: TieBreakConfig::Stable,
        seed: None,
        store_assignments: true,
        serialized_service: false,
    }
}

#[test]
fn engine_least_connections_accounts_for_completed_requests() {
    let config = SimConfig {
        servers: vec![server("fast", 1, 1), server("slow", 100, 1)],
        requests: RequestProfile::FixedCount(2),
        algo: AlgoConfig::LeastConnections,
        tie_break: TieBreakConfig::Stable,
        seed: None,
        store_assignments: true,
        serialized_service: false,
    };
    let result = run_simulation(&config).expect("simulation should succeed");
    let assigned =
        result.assignments.iter().map(|assignment| assignment.server_id).collect::<Vec<_>>();
    assert_eq!(assigned, vec![0, 0]);
}

#[test]
fn seeded_tiebreak_is_deterministic_in_engine() {
    let config = SimConfig {
        servers: vec![server("a", 1, 1), server("b", 1, 1), server("c", 1, 1)],
        requests: RequestProfile::FixedCount(3),
        algo: AlgoConfig::LeastConnections,
        tie_break: TieBreakConfig::Seeded,
        seed: Some(42),
        store_assignments: true,
        serialized_service: false,
    };
    let result_a = run_simulation(&config).expect("simulation should succeed");
    let result_b = run_simulation(&config).expect("simulation should succeed");

    let actual =
        result_a.assignments.iter().map(|assignment| assignment.server_id).collect::<Vec<_>>();
    let expected =
        result_b.assignments.iter().map(|assignment| assignment.server_id).collect::<Vec<_>>();

    assert_eq!(actual, expected);
}

#[test]
fn engine_assignments_include_response_time_metrics() {
    let config = SimConfig {
        servers: vec![server("api", 5, 1)],
        requests: RequestProfile::FixedCount(2),
        algo: AlgoConfig::RoundRobin,
        tie_break: TieBreakConfig::Stable,
        seed: None,
        store_assignments: true,
        serialized_service: false,
    };
    let result = run_simulation(&config).expect("simulation should succeed");

    let started: Vec<u64> =
        result.assignments.iter().map(|assignment| assignment.started_at).collect();
    assert_eq!(started, vec![0, 1]);

    let completed: Vec<u64> =
        result.assignments.iter().map(|assignment| assignment.completed_at).collect();
    assert_eq!(completed, vec![5, 6]);

    assert_eq!(result.totals[0].avg_response_ms, 5);
}

#[test]
fn engine_summary_preserves_input_order() {
    let config = SimConfig {
        servers: vec![server("api", 10, 1), server("db", 20, 1), server("cache", 30, 1)],
        requests: RequestProfile::FixedCount(2),
        algo: AlgoConfig::RoundRobin,
        tie_break: TieBreakConfig::Stable,
        seed: None,
        store_assignments: true,
        serialized_service: false,
    };
    let result = run_simulation(&config).expect("simulation should succeed");
    let names: Vec<&str> = result.totals.iter().map(|summary| summary.name.as_str()).collect();
    assert_eq!(names, vec!["api", "db", "cache"]);
}

#[test]
fn engine_duplicate_server_names_error() {
    let config = config_with_servers(vec![server("a", 10, 1), server("a", 20, 1)]);
    let result = run_simulation(&config);
    assert!(result.is_err());
}

#[test]
fn engine_empty_servers_error() {
    let config = SimConfig {
        servers: Vec::new(),
        requests: RequestProfile::FixedCount(1),
        algo: AlgoConfig::RoundRobin,
        tie_break: TieBreakConfig::Stable,
        seed: None,
        store_assignments: true,
        serialized_service: false,
    };
    let result = run_simulation(&config);
    assert!(result.is_err());
}

#[test]
fn serialized_service_queues_requests_on_one_server() {
    let config = SimConfig {
        servers: vec![server("api", 5, 1)],
        requests: RequestProfile::FixedCount(2),
        algo: AlgoConfig::RoundRobin,
        tie_break: TieBreakConfig::Stable,
        seed: None,
        store_assignments: true,
        serialized_service: true,
    };
    let result = run_simulation(&config).expect("simulation should succeed");
    let started: Vec<u64> = result.assignments.iter().map(|a| a.started_at).collect();
    let completed: Vec<u64> = result.assignments.iter().map(|a| a.completed_at).collect();
    assert_eq!(started, vec![0, 5]);
    assert_eq!(completed, vec![5, 10]);
    assert_eq!(result.totals[0].requests, 2);
    assert_eq!(result.totals[0].avg_response_ms, 7);
}

#[test]
fn sim_least_connections_accounts_for_completed_requests() {
    let config = SimConfig {
        servers: vec![server("fast", 1, 1), server("slow", 100, 1)],
        requests: RequestProfile::FixedCount(2),
        algo: AlgoConfig::LeastConnections,
        tie_break: TieBreakConfig::Stable,
        seed: None,
        store_assignments: true,
        serialized_service: false,
    };
    let result = run_simulation(&config).expect("simulation should succeed");
    let assigned =
        result.assignments.iter().map(|assignment| assignment.server_id).collect::<Vec<_>>();
    assert_eq!(assigned, vec![0, 0]);
}

#[test]
fn sim_assignments_include_response_time_metrics() {
    let config = SimConfig {
        servers: vec![server("api", 5, 1)],
        requests: RequestProfile::FixedCount(2),
        algo: AlgoConfig::RoundRobin,
        tie_break: TieBreakConfig::Stable,
        seed: None,
        store_assignments: true,
        serialized_service: false,
    };
    let result = run_simulation(&config).expect("simulation should succeed");

    let started: Vec<u64> =
        result.assignments.iter().map(|assignment| assignment.started_at).collect();
    assert_eq!(started, vec![0, 1]);

    let completed: Vec<u64> =
        result.assignments.iter().map(|assignment| assignment.completed_at).collect();
    assert_eq!(completed, vec![5, 6]);

    assert_eq!(result.totals[0].avg_response_ms, 5);
}

#[test]
fn sim_summary_preserves_input_order() {
    let config = SimConfig {
        servers: vec![server("api", 10, 1), server("db", 20, 1), server("cache", 30, 1)],
        requests: RequestProfile::FixedCount(2),
        algo: AlgoConfig::RoundRobin,
        tie_break: TieBreakConfig::Stable,
        seed: None,
        store_assignments: true,
        serialized_service: false,
    };
    let result = run_simulation(&config).expect("simulation should succeed");
    let names: Vec<&str> = result.totals.iter().map(|summary| summary.name.as_str()).collect();
    assert_eq!(names, vec!["api", "db", "cache"]);
}

#[test]
fn sim_duplicate_server_names_error() {
    let config = config_with_servers(vec![server("a", 10, 1), server("a", 20, 1)]);
    let result = run_simulation(&config);
    assert!(result.is_err());
}

#[test]
fn sim_empty_servers_error() {
    let config = SimConfig {
        servers: Vec::new(),
        requests: RequestProfile::FixedCount(1),
        algo: AlgoConfig::RoundRobin,
        tie_break: TieBreakConfig::Stable,
        seed: None,
        store_assignments: true,
        serialized_service: false,
    };
    let result = run_simulation(&config);
    assert!(result.is_err());
}
