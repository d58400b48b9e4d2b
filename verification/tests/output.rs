use lb_sim::metrics::{Metrics, Ratio};
use lb_sim::output::{
    write_assignment, write_metadata, write_summary, Formatter, HumanFormatter, SummaryFormatter,
};
use lb_sim::state::{Assignment, RunMetadata, ServerSummary, SimulationResult};

fn sample_result() -> SimulationResult {
    SimulationResult {
        assignments: vec![Assignment {
            request_id: 1,
            server_id: 0,
            server_name: "api".to_string(),
            arrival_time_ms: 0,
            score: Some(10),
            started_at: 0,
            completed_at: 10,
        }],
        totals: vec![ServerSummary { name: "api".to_string(), requests: 1, avg_response_ms: 10 }],
        metadata: RunMetadata {
            algo: "round-robin".to_string(),
            tie_break: "stable".to_string(),
            duration_ms: 10,
        },
        metrics: Metrics {
            p95_response_ms: Some(10),
            p99_response_ms: Some(10),
            fairness: Ratio { num: 1, den: 1 },
            utilization: vec![10000],
            throughput_rps: Ratio { num: 1000, den: 10 },
            avg_wait_ms: Ratio { num: 0, den: 1 },
        },
    }
}

#[test]
fn human_formatter_includes_assignments_and_summary() {
    let formatter = HumanFormatter;
    let output = formatter.write(&sample_result());
    let expected = [
        "Metadata:\n",
        "algo: round-robin\n",
        "tie_break: stable\n",
        "duration_ms: 10\n",
        "Assignments:\n",
        "Request 1 -> api (score: 10ms)\n",
        "Summary:\n",
        "api: 1 requests (avg response: 10ms)\n",
    ]
    .join("");
    assert_eq!(output, expected);
}

#[test]
fn summary_formatter_includes_metadata_and_summary_only() {
    let formatter = SummaryFormatter;
    let output = formatter.write(&sample_result());
    let expected = [
        "Metadata:\n",
        "algo: round-robin\n",
        "tie_break: stable\n",
        "duration_ms: 10\n",
        "Summary:\n",
        "api: 1 requests (avg response: 10ms)\n",
    ]
    .join("");
    assert_eq!(output, expected);
}

#[test]
fn assignment_without_score_omits_it() {
    let mut output = String::from("> ");
    let assignment = Assignment {
        request_id: 120,
        server_id: 3,
        server_name: "db".to_string(),
        arrival_time_ms: 4,
        score: None,
        started_at: 4,
        completed_at: 24,
    };
    write_assignment(&mut output, &assignment);
    assert_eq!(output, "> Request 120 -> db\n");
}

#[test]
fn blocks_are_appended_to_what_is_there() {
    let result = sample_result();
    let mut output = String::from("# ");
    write_metadata(&mut output, &result);
    assert_eq!(output, "# Metadata:\nalgo: round-robin\ntie_break: stable\nduration_ms: 10\n");
    let mut output = String::from("# ");
    write_summary(
        &mut output,
        &[
            ServerSummary { name: "a".to_string(), requests: 0, avg_response_ms: 0 },
            ServerSummary {
                name: "b".to_string(),
                requests: u32::MAX,
                avg_response_ms: u64::MAX,
            },
        ],
    );
    assert_eq!(
        output,
        "# Summary:\na: 0 requests (avg response: 0ms)\nb: 4294967295 requests (avg response: 18446744073709551615ms)\n"
    );
}
