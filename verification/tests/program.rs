use lb_sim::config::{build_config, AlgoArg, Args, FormatArg};
use lb_sim::engine::try_run_simulation;
use lb_sim::models::AlgoConfig;
use lb_sim::output::{format_config, write_assignment, write_summary};

fn flags(algo: AlgoArg, server: &[&str], requests: usize) -> Args {
    Args {
        algo: Some(algo),
        servers: None,
        server: server.iter().map(|entry| entry.to_string()).collect(),
        requests: Some(requests),
        summary: false,
        format: FormatArg::Human,
        seed: None,
        config: None,
    }
}

/// What the program prints for these flags: the tie-break and one line per
/// request unless only the summary is asked for, then the summary; or the
/// error line.
fn program(args: Args) -> Result<String, String> {
    let summary_only = args.summary;
    let (mut config, _) =
        build_config(&args, None).map_err(|error| format!("Error: {}", error.message()))?;
    config.store_assignments = true;
    let result = try_run_simulation(&config)
        .expect("the run fits the machine")
        .map_err(|error| format!("Error: {}", error.message()))?;
    let mut output = String::new();
    if !summary_only {
        output.push_str(&format!("Tie-break: {}\n", result.metadata.tie_break));
        for assignment in &result.assignments {
            write_assignment(&mut output, assignment);
        }
    }
    write_summary(&mut output, &result.totals);
    Ok(output)
}

#[test]
fn requests_zero_fails() {
    let error = program(flags(AlgoArg::RoundRobin, &["a:10"], 0)).unwrap_err();
    assert!(error.contains("Error: requests must be greater than 0"));
}

#[test]
fn empty_servers_fails() {
    let mut args = flags(AlgoArg::RoundRobin, &[], 1);
    args.servers = Some("".to_string());
    let error = program(args).unwrap_err();
    assert!(error.contains("Error: servers must not be empty"));
}

#[test]
fn invalid_latency_fails() {
    let error = program(flags(AlgoArg::RoundRobin, &["api:ten"], 1)).unwrap_err();
    assert!(error.contains("Error: invalid latency in 'api:ten'"));
}

#[test]
fn duplicate_server_names_fail() {
    let error = program(flags(AlgoArg::RoundRobin, &["a:10", "a:20"], 1)).unwrap_err();
    assert!(error.contains("Error: duplicate server name 'a'"));
}

#[test]
fn summary_round_robin_is_stable() {
    let expected =
        "Summary:\na: 2 requests (avg response: 10ms)\nb: 1 requests (avg response: 20ms)\n";
    let mut args = flags(AlgoArg::RoundRobin, &["a:10", "b:20"], 3);
    args.summary = true;
    args.seed = Some(42);
    assert_eq!(program(args).unwrap(), expected);
}

#[test]
fn summary_least_response_time_is_stable() {
    let expected =
        "Summary:\nfast: 2 requests (avg response: 10ms)\nslow: 0 requests (avg response: 0ms)\n";
    let mut args = flags(AlgoArg::LeastResponseTime, &["fast:10", "slow:30"], 2);
    args.summary = true;
    args.seed = Some(7);
    assert_eq!(program(args).unwrap(), expected);
}

#[test]
fn cli_smoke_summary_preserves_input_order() {
    let expected = "Summary:\nz: 1 requests (avg response: 10ms)\na: 0 requests (avg response: 0ms)\nm: 0 requests (avg response: 0ms)\n";
    let mut args = flags(AlgoArg::RoundRobin, &["z:10", "a:20", "m:30"], 1);
    args.summary = true;
    assert_eq!(program(args).unwrap(), expected);
}

#[test]
fn full_output_least_response_time_includes_scores() {
    let expected = [
        "Tie-break: seeded(7)\n",
        "Request 1 -> a (score: 10ms)\n",
        "Request 2 -> b (score: 10ms)\n",
        "Request 3 -> a (score: 20ms)\n",
        "Summary:\n",
        "a: 2 requests (avg response: 10ms)\n",
        "b: 1 requests (avg response: 10ms)\n",
    ]
    .join("");
    let mut args = flags(AlgoArg::LeastResponseTime, &["a:10", "b:10"], 3);
    args.seed = Some(7);
    assert_eq!(program(args).unwrap(), expected);
}

#[test]
fn full_output_round_robin_omits_scores() {
    let expected = [
        "Tie-break: seeded(99)\n",
        "Request 1 -> a\n",
        "Request 2 -> b\n",
        "Request 3 -> a\n",
        "Summary:\n",
        "a: 2 requests (avg response: 10ms)\n",
        "b: 1 requests (avg response: 20ms)\n",
    ]
    .join("");
    let mut args = flags(AlgoArg::RoundRobin, &["a:10", "b:20"], 3);
    args.seed = Some(99);
    assert_eq!(program(args).unwrap(), expected);
}

#[test]
fn repeatable_server_flag_parses() {
    let expected =
        "Summary:\napi: 1 requests (avg response: 10ms)\ndb: 1 requests (avg response: 20ms)\n";
    let mut args = flags(AlgoArg::RoundRobin, &["api:10", "db:20"], 2);
    args.summary = true;
    assert_eq!(program(args).unwrap(), expected);
}

#[test]
fn list_algorithms_prints_supported_values() {
    let expected =
        ["round-robin\n", "weighted-round-robin\n", "least-connections\n", "least-response-time\n"]
            .join("");
    let mut printed = String::new();
    for algo in [
        AlgoConfig::RoundRobin,
        AlgoConfig::WeightedRoundRobin,
        AlgoConfig::LeastConnections,
        AlgoConfig::LeastResponseTime,
    ] {
        printed.push_str(&algo.label());
        printed.push('\n');
    }
    assert_eq!(printed, expected);
}

#[test]
fn show_config_prints_parsed_configuration() {
    let expected = [
        "Algorithm: round-robin\n",
        "Requests: 3\n",
        "Tie-break: seeded(42)\n",
        "Servers:\n",
        "- api (latency: 10ms, weight: 1)\n",
        "- db (latency: 20ms, weight: 2)\n",
    ]
    .join("");
    let mut args = flags(AlgoArg::RoundRobin, &[], 3);
    args.servers = Some("api:10,db:20:2".to_string());
    args.seed = Some(42);
    let (config, _) = build_config(&args, None).unwrap();
    assert_eq!(format_config(&config), expected);
}

#[test]
fn other_profiles_are_shown_with_their_sizes() {
    let mut args = flags(AlgoArg::LeastConnections, &["a:1"], 3);
    args.seed = None;
    let (mut config, _) = build_config(&args, None).unwrap();
    config.requests = lb_sim::models::RequestProfile::Burst { count: 4, at_ms: 250 };
    assert_eq!(
        format_config(&config),
        "Algorithm: least-connections\nRequests: 4 at 250ms\nTie-break: stable\nServers:\n- a (latency: 1ms, weight: 1)\n"
    );
    config.requests =
        lb_sim::models::RequestProfile::Poisson { duration_ms: 90, arrivals_ms: vec![3, 8] };
    config.servers.clear();
    assert_eq!(
        format_config(&config),
        "Algorithm: least-connections\nRequests: 2 sampled over 90ms\nTie-break: stable\nServers:\n"
    );
}
