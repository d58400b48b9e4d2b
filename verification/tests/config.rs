use lb_sim::config::{parse_server_args, parse_server_entry};
use lb_sim::error::SimError;

#[test]
fn parse_servers_accepts_valid_list() {
    let servers = parse_server_args(&[], Some("api:10, db:20")).unwrap();
    assert_eq!(servers.len(), 2);
    assert_eq!(servers[0].name, "api");
    assert_eq!(servers[0].base_latency_ms, 10);
    assert_eq!(servers[0].weight, 1);
    assert_eq!(servers[1].name, "db");
    assert_eq!(servers[1].base_latency_ms, 20);
    assert_eq!(servers[1].weight, 1);
}

#[test]
fn parse_servers_accepts_weighted_entry() {
    let servers = parse_server_args(&["api:10:3".to_string()], None).unwrap();
    assert_eq!(servers.len(), 1);
    assert_eq!(servers[0].weight, 3);
}

#[test]
fn parse_servers_rejects_empty_input() {
    assert!(parse_server_args(&[], None).is_err());
}

#[test]
fn parse_servers_rejects_invalid_format() {
    assert!(parse_server_args(&["api".to_string()], None).is_err());
    assert!(parse_server_args(&["api:10:20:30".to_string()], None).is_err());
}

#[test]
fn parse_servers_rejects_invalid_latency() {
    assert!(parse_server_args(&["api:0".to_string()], None).is_err());
    assert!(parse_server_args(&["api:ten".to_string()], None).is_err());
}

#[test]
fn parse_servers_rejects_invalid_weight() {
    assert!(parse_server_args(&["api:10:0".to_string()], None).is_err());
    assert!(parse_server_args(&["api:10:ten".to_string()], None).is_err());
    assert!(parse_server_args(&["api:10:".to_string()], None).is_err());
}

#[test]
fn parse_servers_rejects_duplicate_names() {
    let err = parse_server_args(&[], Some("api:10, api:20")).unwrap_err();
    assert_eq!(err.message(), "duplicate server name 'api'");
}

#[test]
fn parse_servers_rejects_trailing_commas() {
    let err = parse_server_args(&[], Some("a:10,")).unwrap_err();
    assert_eq!(err.message(), "servers must not contain empty entries");
}

#[test]
fn parse_servers_rejects_empty_segments() {
    let err = parse_server_args(&[], Some("a:10,,b:20")).unwrap_err();
    assert_eq!(err.message(), "servers must not contain empty entries");
}

#[test]
fn parse_servers_rejects_comma_only_input() {
    let err = parse_server_args(&[], Some(",")).unwrap_err();
    assert_eq!(err.message(), "servers must not contain empty entries");
}

#[test]
fn parse_servers_rejects_whitespace_only_input() {
    let err = parse_server_args(&[], Some(" ")).unwrap_err();
    assert_eq!(err.message(), "servers must not be empty");
}

#[test]
fn entry_errors_carry_the_trimmed_entry() {
    let err = parse_server_entry("  api:ten ").unwrap_err();
    assert!(matches!(err, SimError::InvalidLatency(_)));
    assert_eq!(err.message(), "invalid latency in 'api:ten'");
    let err = parse_server_entry("api:0").unwrap_err();
    assert_eq!(err.message(), "latency must be > 0 in 'api:0'");
    let err = parse_server_entry("api:5:x").unwrap_err();
    assert_eq!(err.message(), "invalid weight in 'api:5:x'");
    let err = parse_server_entry("api:5:0").unwrap_err();
    assert_eq!(err.message(), "weight must be > 0 in 'api:5:0'");
    let err = parse_server_entry("api").unwrap_err();
    assert_eq!(err.message(), "invalid server entry 'api': expected name:latency_ms[:weight]");
    let err = parse_server_entry("   ").unwrap_err();
    assert_eq!(err.message(), "servers must not contain empty entries");
}

#[test]
fn entry_numbers_follow_unsigned_decimal_notation() {
    let server = parse_server_entry(" cache : +0015 : 7 ").unwrap();
    assert_eq!(server.name, "cache");
    assert_eq!(server.base_latency_ms, 15);
    assert_eq!(server.weight, 7);
    assert_eq!(parse_server_entry("a:18446744073709551615").unwrap().base_latency_ms, u64::MAX);
    assert!(matches!(
        parse_server_entry("a:18446744073709551616").unwrap_err(),
        SimError::InvalidLatency(_)
    ));
    assert_eq!(parse_server_entry("a:1:4294967295").unwrap().weight, u32::MAX);
    assert!(matches!(
        parse_server_entry("a:1:4294967296").unwrap_err(),
        SimError::InvalidWeight(_)
    ));
    assert!(matches!(parse_server_entry("a:-1").unwrap_err(), SimError::InvalidLatency(_)));
    assert!(matches!(parse_server_entry("a:+").unwrap_err(), SimError::InvalidLatency(_)));
    assert!(matches!(parse_server_entry("a:1_0").unwrap_err(), SimError::InvalidLatency(_)));
}

use lb_sim::config::{build_config, create_config, format_arg, AlgoArg, Args, FormatArg};
use lb_sim::models::{AlgoConfig, RequestProfile, ServerConfig, SimConfig, TieBreakConfig};

fn flags() -> Args {
    Args {
        algo: Some(AlgoArg::LeastConnections),
        servers: Some("api:10,db:20:2".to_string()),
        server: vec!["cache:5".to_string()],
        requests: Some(3),
        summary: false,
        format: FormatArg::Human,
        seed: None,
        config: None,
    }
}

fn file() -> SimConfig {
    SimConfig {
        servers: vec![ServerConfig { name: "x".to_string(), base_latency_ms: 7, weight: 4 }],
        requests: RequestProfile::Burst { count: 2, at_ms: 50 },
        algo: AlgoConfig::WeightedRoundRobin,
        tie_break: TieBreakConfig::Seeded,
        seed: Some(9),
        store_assignments: false,
        serialized_service: true,
    }
}

#[test]
fn flags_alone_make_a_configuration() {
    let (config, format) = build_config(&flags(), None).unwrap();
    assert_eq!(format, FormatArg::Human);
    assert_eq!(config.algo, AlgoConfig::LeastConnections);
    assert!(matches!(config.requests, RequestProfile::FixedCount(3)));
    assert_eq!(config.tie_break, TieBreakConfig::Stable);
    assert_eq!(config.seed, None);
    assert!(config.store_assignments);
    assert!(!config.serialized_service);
    let names: Vec<&str> = config.servers.iter().map(|server| server.name.as_str()).collect();
    assert_eq!(names, vec!["api", "db", "cache"]);
    assert_eq!(config.servers[1].weight, 2);
}

#[test]
fn a_seed_switches_to_the_seeded_tie_break() {
    let mut args = flags();
    args.seed = Some(42);
    args.summary = true;
    let (config, format) = build_config(&args, None).unwrap();
    assert_eq!(format, FormatArg::Summary);
    assert_eq!(config.tie_break, TieBreakConfig::Seeded);
    assert_eq!(config.seed, Some(42));
    assert!(!config.store_assignments);
}

#[test]
fn missing_flags_are_reported_in_order() {
    let mut args = flags();
    args.algo = None;
    args.requests = None;
    args.servers = Some("broken".to_string());
    let err = build_config(&args, None).unwrap_err();
    assert!(matches!(&err, SimError::Cli(_)));
    assert_eq!(err.message(), "missing required --algo");
    args.algo = Some(AlgoArg::RoundRobin);
    let err = build_config(&args, None).unwrap_err();
    assert_eq!(err.message(), "missing required --requests");
    args.requests = Some(1);
    let err = build_config(&args, None).unwrap_err();
    assert_eq!(err.message(), "invalid server entry 'broken': expected name:latency_ms[:weight]");
}

#[test]
fn a_configuration_file_stands_where_no_flag_is_given() {
    let args = Args {
        algo: None,
        servers: None,
        server: Vec::new(),
        requests: None,
        summary: false,
        format: FormatArg::Json,
        seed: None,
        config: Some("run.toml".to_string()),
    };
    let (config, format) = build_config(&args, Some(file())).unwrap();
    assert_eq!(format, FormatArg::Json);
    assert_eq!(config.algo, AlgoConfig::WeightedRoundRobin);
    assert!(matches!(config.requests, RequestProfile::Burst { count: 2, at_ms: 50 }));
    assert_eq!(config.tie_break, TieBreakConfig::Seeded);
    assert_eq!(config.seed, Some(9));
    assert_eq!(config.servers.len(), 1);
    assert_eq!(config.servers[0].name, "x");
    assert!(config.store_assignments);
    assert!(config.serialized_service);
}

#[test]
fn flags_replace_what_a_configuration_file_says() {
    let mut args = flags();
    args.seed = Some(1);
    args.config = Some("run.json".to_string());
    let (config, _) = build_config(&args, Some(file())).unwrap();
    assert_eq!(config.algo, AlgoConfig::LeastConnections);
    assert!(matches!(config.requests, RequestProfile::FixedCount(3)));
    assert_eq!(config.seed, Some(1));
    assert_eq!(config.tie_break, TieBreakConfig::Seeded);
    assert_eq!(config.servers.len(), 3);
    assert!(config.serialized_service);

    let mut args = flags();
    args.servers = Some("".to_string());
    args.server.clear();
    assert!(matches!(build_config(&args, Some(file())), Err(SimError::EmptyServers)));
}

#[test]
fn summary_wins_over_format() {
    let mut args = flags();
    args.format = FormatArg::Json;
    assert_eq!(format_arg(&args), FormatArg::Json);
    args.summary = true;
    assert_eq!(format_arg(&args), FormatArg::Summary);
}

#[test]
fn created_configurations_run_concurrently_with_history() {
    let servers = vec![ServerConfig { name: "a".to_string(), base_latency_ms: 1, weight: 1 }];
    let config =
        create_config(servers, 4, AlgoArg::LeastResponseTime, TieBreakConfig::Seeded, Some(5));
    assert_eq!(config.algo, AlgoConfig::LeastResponseTime);
    assert_eq!(AlgoConfig::from(AlgoArg::WeightedRoundRobin), AlgoConfig::WeightedRoundRobin);
    assert!(matches!(config.requests, RequestProfile::FixedCount(4)));
    assert_eq!(config.seed, Some(5));
    assert!(config.store_assignments);
    assert!(!config.serialized_service);
    assert_eq!(lb_sim::models::default_weight(), 1);
    assert_eq!(TieBreakConfig::default(), TieBreakConfig::Stable);
}

#[test]
fn every_error_has_its_message() {
    let text = |error: SimError| error.message();
    assert_eq!(text(SimError::EmptyServers), "servers must not be empty");
    assert_eq!(text(SimError::EmptyServerEntry), "servers must not contain empty entries");
    assert_eq!(text(SimError::RequestsZero), "requests must be greater than 0");
    assert_eq!(text(SimError::DuplicateServerName("a".into())), "duplicate server name 'a'");
    assert_eq!(
        text(SimError::InvalidServerEntry("a:1:2:3".into())),
        "invalid server entry 'a:1:2:3': expected name:latency_ms[:weight]"
    );
    assert_eq!(text(SimError::InvalidLatency("a:x".into())), "invalid latency in 'a:x'");
    assert_eq!(text(SimError::InvalidLatencyValue("a:0".into())), "latency must be > 0 in 'a:0'");
    assert_eq!(text(SimError::InvalidWeight("a:1:x".into())), "invalid weight in 'a:1:x'");
    assert_eq!(text(SimError::InvalidWeightValue("a:1:0".into())), "weight must be > 0 in 'a:1:0'");
    assert_eq!(
        text(SimError::InvalidRequestDuration(0)),
        "request duration must be > 0 (got 0ms)"
    );
    assert_eq!(
        text(SimError::InvalidRequestDuration(18446744073709551615)),
        "request duration must be > 0 (got 18446744073709551615ms)"
    );
    assert_eq!(
        text(SimError::InvalidTieBreakSeed),
        "tie-break seed required when tie_break is seeded"
    );
    assert_eq!(text(SimError::Cli("missing required --algo".into())), "missing required --algo");
}
