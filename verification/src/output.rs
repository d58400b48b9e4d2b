//! Rendering a result as text.

use vstd::prelude::*;
use vstd::string::StringExecFns;
use crate::models::{
    algo_label, tie_break_label, RequestProfile, ServerConfig, SimConfig,
};
use crate::state::{Assignment, RunMetadata, ServerSummary, SimulationResult};
use crate::text::{decimal, push_decimal};

verus! {

/// The metadata block: a heading and one line each for the policy, the
/// tie-break and the duration.
pub open spec fn metadata_text(metadata: RunMetadata) -> Seq<char> {
    "Metadata:\n"@ + "algo: "@ + metadata.algo@ + "\n"@ + "tie_break: "@ + metadata.tie_break@
        + "\n"@ + "duration_ms: "@ + decimal(metadata.duration_ms as nat) + "\n"@
}

/// The line of one assignment: the request, the server it went to and, for
/// a score-based policy, the winning score.
pub open spec fn assignment_text(assignment: Assignment) -> Seq<char> {
    let route = "Request "@ + decimal(assignment.request_id as nat) + " -> "@
        + assignment.server_name@;
    match assignment.score {
        Some(score) => route + " (score: "@ + decimal(score as nat) + "ms)\n"@,
        None => route + "\n"@,
    }
}

/// The lines of the first `upto` assignments.
pub open spec fn assignments_text(history: Seq<Assignment>, upto: int) -> Seq<char>
    decreases upto,
{
    if upto <= 0 {
        Seq::empty()
    } else {
        assignments_text(history, upto - 1) + assignment_text(history[upto - 1])
    }
}

/// The line of one server summary.
pub open spec fn summary_line(summary: ServerSummary) -> Seq<char> {
    summary.name@ + ": "@ + decimal(summary.requests as nat) + " requests (avg response: "@
        + decimal(summary.avg_response_ms as nat) + "ms)\n"@
}

/// The lines of the first `upto` server summaries.
pub open spec fn summary_lines(totals: Seq<ServerSummary>, upto: int) -> Seq<char>
    decreases upto,
{
    if upto <= 0 {
        Seq::empty()
    } else {
        summary_lines(totals, upto - 1) + summary_line(totals[upto - 1])
    }
}

/// The summary block: a heading and one line per server, in input order.
pub open spec fn summary_text(totals: Seq<ServerSummary>) -> Seq<char> {
    "Summary:\n"@ + summary_lines(totals, totals.len() as int)
}

/// The full report: metadata, every assignment, summary.
pub open spec fn human_text(result: SimulationResult) -> Seq<char> {
    metadata_text(result.metadata) + "Assignments:\n"@ + assignments_text(
        result.assignments@,
        result.assignments@.len() as int,
    ) + summary_text(result.totals@)
}

/// The short report: metadata and summary.
pub open spec fn brief_text(result: SimulationResult) -> Seq<char> {
    metadata_text(result.metadata) + summary_text(result.totals@)
}

/// Appends the metadata block.
pub fn write_metadata(output: &mut String, result: &SimulationResult)
    ensures
        final(output)@ == old(output)@ + metadata_text(result.metadata),
{
    output.append("Metadata:\n");
    output.append("algo: ");
    output.append(result.metadata.algo.as_str());
    output.append("\n");
    output.append("tie_break: ");
    output.append(result.metadata.tie_break.as_str());
    output.append("\n");
    output.append("duration_ms: ");
    push_decimal(output, result.metadata.duration_ms as u128);
    output.append("\n");
    proof {
        assert(output@ =~= old(output)@ + metadata_text(result.metadata));
    }
}

/// Appends the line of one assignment.
pub fn write_assignment(output: &mut String, assignment: &Assignment)
    ensures
        final(output)@ == old(output)@ + assignment_text(*assignment),
{
    output.append("Request ");
    push_decimal(output, assignment.request_id as u128);
    output.append(" -> ");
    output.append(assignment.server_name.as_str());
    match assignment.score {
        Some(score) => {
            output.append(" (score: ");
            push_decimal(output, score as u128);
            output.append("ms)\n");
        },
        None => {
            output.append("\n");
        },
    }
    proof {
        assert(output@ =~= old(output)@ + assignment_text(*assignment));
    }
}

/// Appends the summary block.
pub fn write_summary(output: &mut String, totals: &[ServerSummary])
    ensures
        final(output)@ == old(output)@ + summary_text(totals@),
{
    output.append("Summary:\n");
    let mut idx: usize = 0;
    while idx < totals.len()
        invariant
            idx <= totals.len(),
            output@ == old(output)@ + "Summary:\n"@ + summary_lines(totals@, idx as int),
        decreases totals.len() - idx,
    {
        let summary = &totals[idx];
        let ghost before = output@;
        output.append(summary.name.as_str());
        output.append(": ");
        push_decimal(output, summary.requests as u128);
        output.append(" requests (avg response: ");
        push_decimal(output, summary.avg_response_ms as u128);
        output.append("ms)\n");
        proof {
            assert(output@ =~= before + summary_line(*summary));
            assert(output@ =~= old(output)@ + "Summary:\n"@ + summary_lines(
                totals@,
                idx as int + 1,
            ));
        }
        idx += 1;
    }
    proof {
        assert(output@ =~= old(output)@ + summary_text(totals@));
    }
}

/// The line that describes a request profile.
pub open spec fn requests_line(profile: RequestProfile) -> Seq<char> {
    match profile {
        RequestProfile::FixedCount(count) => "Requests: "@ + decimal(count as nat) + "\n"@,
        RequestProfile::Burst { count, at_ms } => "Requests: "@ + decimal(count as nat) + " at "@
            + decimal(at_ms as nat) + "ms\n"@,
        RequestProfile::Poisson { duration_ms, arrivals_ms } => "Requests: "@ + decimal(
            arrivals_ms@.len(),
        ) + " sampled over "@ + decimal(duration_ms as nat) + "ms\n"@,
    }
}

/// The line that describes a server.
pub open spec fn server_line(server: ServerConfig) -> Seq<char> {
    "- "@ + server.name@ + " (latency: "@ + decimal(server.base_latency_ms as nat)
        + "ms, weight: "@ + decimal(server.weight as nat) + ")\n"@
}

/// The lines of the first `upto` servers.
pub open spec fn server_lines(servers: Seq<ServerConfig>, upto: int) -> Seq<char>
    decreases upto,
{
    if upto <= 0 {
        Seq::empty()
    } else {
        server_lines(servers, upto - 1) + server_line(servers[upto - 1])
    }
}

/// A configuration as text: the policy, the requests, the tie-break and
/// the servers in input order.
pub open spec fn config_text(config: SimConfig) -> Seq<char> {
    "Algorithm: "@ + algo_label(config.algo) + "\n"@ + requests_line(config.requests)
        + "Tie-break: "@ + tie_break_label(config.tie_break, config.seed) + "\n"@ + "Servers:\n"@
        + server_lines(config.servers@, config.servers@.len() as int)
}

/// Renders a configuration as text.
pub fn format_config(config: &SimConfig) -> (output: String)
    ensures
        output@ == config_text(*config),
{
    let mut output = String::from_str("Algorithm: ");
    output.append(config.algo.label().as_str());
    output.append("\n");
    let ghost first = output@;
    output.append("Requests: ");
    match &config.requests {
        RequestProfile::FixedCount(count) => {
            push_decimal(&mut output, *count as u128);
            output.append("\n");
        },
        RequestProfile::Burst { count, at_ms } => {
            push_decimal(&mut output, *count as u128);
            output.append(" at ");
            push_decimal(&mut output, *at_ms as u128);
            output.append("ms\n");
        },
        RequestProfile::Poisson { duration_ms, arrivals_ms } => {
            push_decimal(&mut output, arrivals_ms.len() as u128);
            output.append(" sampled over ");
            push_decimal(&mut output, *duration_ms as u128);
            output.append("ms\n");
        },
    }
    let ghost second = output@;
    proof {
        assert(first =~= "Algorithm: "@ + algo_label(config.algo) + "\n"@);
        assert(second =~= first + requests_line(config.requests));
    }
    output.append("Tie-break: ");
    output.append(config.tie_break.label_with_seed(config.seed).as_str());
    output.append("\n");
    output.append("Servers:\n");
    let ghost head = output@;
    proof {
        assert(head =~= second + "Tie-break: "@ + tie_break_label(config.tie_break, config.seed)
            + "\n"@ + "Servers:\n"@);
        assert(head + server_lines(config.servers@, config.servers@.len() as int) =~= config_text(
            *config,
        ));
    }
    let mut idx: usize = 0;
    while idx < config.servers.len()
        invariant
            idx <= config.servers.len(),
            output@ == head + server_lines(config.servers@, idx as int),
        decreases config.servers.len() - idx,
    {
        let server = &config.servers[idx];
        let ghost before = output@;
        output.append("- ");
        output.append(server.name.as_str());
        output.append(" (latency: ");
        push_decimal(&mut output, server.base_latency_ms as u128);
        output.append("ms, weight: ");
        push_decimal(&mut output, server.weight as u128);
        output.append(")\n");
        proof {
            assert(output@ =~= before + server_line(*server));
            assert(output@ =~= head + server_lines(config.servers@, idx as int + 1));
        }
        idx += 1;
    }
    output
}

/// A way of rendering a result as text.
pub trait Formatter {
    fn write(&self, result: &SimulationResult) -> String;
}

/// Renders the full report.
#[derive(Clone, Copy, Debug, Default)]
pub struct HumanFormatter;

impl Formatter for HumanFormatter {
    fn write(&self, result: &SimulationResult) -> (output: String)
        ensures
            output@ == human_text(*result),
    {
        let mut output = String::new();
        write_metadata(&mut output, result);
        output.append("Assignments:\n");
        let mut idx: usize = 0;
        while idx < result.assignments.len()
            invariant
                idx <= result.assignments.len(),
                output@ == metadata_text(result.metadata) + "Assignments:\n"@ + assignments_text(
                    result.assignments@,
                    idx as int,
                ),
            decreases result.assignments.len() - idx,
        {
            write_assignment(&mut output, &result.assignments[idx]);
            proof {
                assert(output@ =~= metadata_text(result.metadata) + "Assignments:\n"@
                    + assignments_text(result.assignments@, idx as int + 1));
            }
            idx += 1;
        }
        write_summary(&mut output, result.totals.as_slice());
        output
    }
}

/// Renders the short report.
#[derive(Clone, Copy, Debug, Default)]
pub struct SummaryFormatter;

impl Formatter for SummaryFormatter {
    fn write(&self, result: &SimulationResult) -> (output: String)
        ensures
            output@ == brief_text(*result),
    {
        let mut output = String::new();
        write_metadata(&mut output, result);
        write_summary(&mut output, result.totals.as_slice());
        output
    }
}

} // verus!
