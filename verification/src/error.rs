//! What a configuration can be rejected for.

use vstd::prelude::*;
use vstd::string::StringExecFns;
use crate::text::{decimal, push_decimal};

verus! {

/// A configuration error. The text that comes with most variants is the
/// server name or the server entry at fault.
#[derive(Clone, Debug)]
pub enum SimError {
    EmptyServers,
    RequestsZero,
    DuplicateServerName(String),
    InvalidServerEntry(String),
    InvalidLatency(String),
    InvalidLatencyValue(String),
    InvalidWeight(String),
    InvalidWeightValue(String),
    InvalidRequestDuration(u64),
    InvalidTieBreakSeed,
    EmptyServerEntry,
    /// The command line is at fault; the text says how.
    Cli(String),
}

/// A configuration error as a plain value: the same variants, with the
/// characters of the text.
pub enum ErrorModel {
    EmptyServers,
    RequestsZero,
    DuplicateServerName(Seq<char>),
    InvalidServerEntry(Seq<char>),
    InvalidLatency(Seq<char>),
    InvalidLatencyValue(Seq<char>),
    InvalidWeight(Seq<char>),
    InvalidWeightValue(Seq<char>),
    InvalidRequestDuration(u64),
    InvalidTieBreakSeed,
    EmptyServerEntry,
    Cli(Seq<char>),
}

impl View for SimError {
    type V = ErrorModel;

    open spec fn view(&self) -> ErrorModel {
        match self {
            SimError::EmptyServers => ErrorModel::EmptyServers,
            SimError::RequestsZero => ErrorModel::RequestsZero,
            SimError::DuplicateServerName(text) => ErrorModel::DuplicateServerName(text@),
            SimError::InvalidServerEntry(text) => ErrorModel::InvalidServerEntry(text@),
            SimError::InvalidLatency(text) => ErrorModel::InvalidLatency(text@),
            SimError::InvalidLatencyValue(text) => ErrorModel::InvalidLatencyValue(text@),
            SimError::InvalidWeight(text) => ErrorModel::InvalidWeight(text@),
            SimError::InvalidWeightValue(text) => ErrorModel::InvalidWeightValue(text@),
            SimError::InvalidRequestDuration(duration_ms) => ErrorModel::InvalidRequestDuration(
                *duration_ms,
            ),
            SimError::InvalidTieBreakSeed => ErrorModel::InvalidTieBreakSeed,
            SimError::EmptyServerEntry => ErrorModel::EmptyServerEntry,
            SimError::Cli(text) => ErrorModel::Cli(text@),
        }
    }
}

/// The message of an error, as it is shown to a user.
pub open spec fn message_text(error: ErrorModel) -> Seq<char> {
    match error {
        ErrorModel::EmptyServers => "servers must not be empty"@,
        ErrorModel::EmptyServerEntry => "servers must not contain empty entries"@,
        ErrorModel::RequestsZero => "requests must be greater than 0"@,
        ErrorModel::DuplicateServerName(name) => "duplicate server name '"@ + name + "'"@,
        ErrorModel::InvalidServerEntry(entry) => "invalid server entry '"@ + entry
            + "': expected name:latency_ms[:weight]"@,
        ErrorModel::InvalidLatency(entry) => "invalid latency in '"@ + entry + "'"@,
        ErrorModel::InvalidLatencyValue(entry) => "latency must be > 0 in '"@ + entry + "'"@,
        ErrorModel::InvalidWeight(entry) => "invalid weight in '"@ + entry + "'"@,
        ErrorModel::InvalidWeightValue(entry) => "weight must be > 0 in '"@ + entry + "'"@,
        ErrorModel::InvalidRequestDuration(duration_ms) => "request duration must be > 0 (got "@
            + decimal(duration_ms as nat) + "ms)"@,
        ErrorModel::InvalidTieBreakSeed => "tie-break seed required when tie_break is seeded"@,
        ErrorModel::Cli(text) => text,
    }
}

/// `before`, then `text`, then `after`.
fn quoted(before: &str, text: &String, after: &str) -> (whole: String)
    ensures
        whole@ == before@ + text@ + after@,
{
    let mut whole = String::from_str(before);
    whole.append(text.as_str());
    whole.append(after);
    whole
}

impl SimError {
    /// The message of the error, as it is shown to a user.
    pub fn message(&self) -> (text: String)
        ensures
            text@ == message_text(self@),
    {
        match self {
            SimError::EmptyServers => String::from_str("servers must not be empty"),
            SimError::EmptyServerEntry => String::from_str(
                "servers must not contain empty entries",
            ),
            SimError::RequestsZero => String::from_str("requests must be greater than 0"),
            SimError::DuplicateServerName(name) => quoted("duplicate server name '", name, "'"),
            SimError::InvalidServerEntry(entry) => quoted(
                "invalid server entry '",
                entry,
                "': expected name:latency_ms[:weight]",
            ),
            SimError::InvalidLatency(entry) => quoted("invalid latency in '", entry, "'"),
            SimError::InvalidLatencyValue(entry) => quoted("latency must be > 0 in '", entry, "'"),
            SimError::InvalidWeight(entry) => quoted("invalid weight in '", entry, "'"),
            SimError::InvalidWeightValue(entry) => quoted("weight must be > 0 in '", entry, "'"),
            SimError::InvalidRequestDuration(duration_ms) => {
                let mut text = String::from_str("request duration must be > 0 (got ");
                push_decimal(&mut text, *duration_ms as u128);
                text.append("ms)");
                text
            },
            SimError::InvalidTieBreakSeed => String::from_str(
                "tie-break seed required when tie_break is seeded",
            ),
            SimError::Cli(text) => text.clone(),
        }
    }
}

pub type SimResult<T> = Result<T, SimError>;

} // verus!
