//! Validation: what a configuration is refused for, and in which order.

use vstd::prelude::*;
use crate::error::SimError;
use crate::models::{ServerConfig, SimConfig, TieBreakConfig};
use crate::requests::{check_profile, profile_error};
use crate::text::{blank, is_blank};

verus! {

/// An earlier server has the name of server `index`.
pub open spec fn name_taken(servers: Seq<ServerConfig>, index: int) -> bool {
    exists|earlier: int| 0 <= earlier < index && #[trigger] servers[earlier].name@ == servers[index].name@
}

/// What server `index` is rejected for: a blank name, a zero latency, a zero
/// weight or a name that an earlier server has, in this order.
pub open spec fn server_error(servers: Seq<ServerConfig>, index: int) -> Option<SimError> {
    let server = servers[index];
    if is_blank(server.name@) {
        Some(SimError::InvalidServerEntry(server.name))
    } else if server.base_latency_ms == 0 {
        Some(SimError::InvalidLatencyValue(server.name))
    } else if server.weight == 0 {
        Some(SimError::InvalidWeightValue(server.name))
    } else if name_taken(servers, index) {
        Some(SimError::DuplicateServerName(server.name))
    } else {
        None
    }
}

/// The error of the first server, among the first `upto`, that has one.
pub open spec fn first_server_error(servers: Seq<ServerConfig>, upto: int) -> Option<SimError>
    decreases upto,
{
    if upto <= 0 {
        None
    } else {
        match first_server_error(servers, upto - 1) {
            Some(error) => Some(error),
            None => server_error(servers, upto - 1),
        }
    }
}

/// The first violation of a configuration: no servers; then the servers in
/// input order; then the request profile; then a seeded tie-break without a seed.
pub open spec fn config_error(config: SimConfig) -> Option<SimError> {
    if config.servers@.len() == 0 {
        Some(SimError::EmptyServers)
    } else {
        match first_server_error(config.servers@, config.servers@.len() as int) {
            Some(error) => Some(error),
            None => match profile_error(config.requests) {
                Some(error) => Some(error),
                None => if config.tie_break == TieBreakConfig::Seeded && config.seed is None {
                    Some(SimError::InvalidTieBreakSeed)
                } else {
                    None
                },
            },
        }
    }
}

/// Whether an earlier server has the name of server `index`.
fn name_used_before(servers: &[ServerConfig], index: usize) -> (taken: bool)
    requires
        index < servers.len(),
    ensures
        taken == name_taken(servers@, index as int),
{
    let mut earlier: usize = 0;
    while earlier < index
        invariant
            earlier <= index < servers.len(),
            forall|j: int|
                0 <= j < earlier ==> (#[trigger] servers@[j]).name@ != servers@[index as int].name@,
        decreases index - earlier,
    {
        if servers[earlier].name == servers[index].name {
            return true;
        }
        earlier += 1;
    }
    false
}

/// Checks one server against the ones before it.
fn check_server(servers: &[ServerConfig], index: usize) -> (outcome: Result<(), SimError>)
    requires
        index < servers.len(),
    ensures
        match outcome {
            Ok(_) => server_error(servers@, index as int) is None,
            Err(error) => server_error(servers@, index as int) == Some(error),
        },
{
    let server = &servers[index];
    if blank(server.name.as_str()) {
        return Err(SimError::InvalidServerEntry(server.name.clone()));
    }
    if server.base_latency_ms == 0 {
        return Err(SimError::InvalidLatencyValue(server.name.clone()));
    }
    if server.weight == 0 {
        return Err(SimError::InvalidWeightValue(server.name.clone()));
    }
    if name_used_before(servers, index) {
        return Err(SimError::DuplicateServerName(server.name.clone()));
    }
    Ok(())
}

/// Checks a configuration and reports its first violation.
pub fn validate_config(config: &SimConfig) -> (outcome: Result<(), SimError>)
    ensures
        match outcome {
            Ok(_) => config_error(*config) is None,
            Err(error) => config_error(*config) == Some(error),
        },
{
    if config.servers.len() == 0 {
        return Err(SimError::EmptyServers);
    }
    let mut idx: usize = 0;
    while idx < config.servers.len()
        invariant
            idx <= config.servers.len(),
            first_server_error(config.servers@, idx as int) is None,
        decreases config.servers.len() - idx,
    {
        match check_server(config.servers.as_slice(), idx) {
            Err(error) => {
                proof {
                    lemma_first_error_found(
                        config.servers@,
                        idx as int,
                        config.servers@.len() as int,
                    );
                }
                return Err(error);
            },
            Ok(_) => {},
        }
        idx += 1;
    }
    match check_profile(&config.requests) {
        Err(error) => {
            return Err(error);
        },
        Ok(_) => {},
    }
    match config.tie_break {
        TieBreakConfig::Seeded => {
            if config.seed.is_none() {
                return Err(SimError::InvalidTieBreakSeed);
            }
        },
        TieBreakConfig::Stable => {},
    }
    Ok(())
}

proof fn lemma_first_error_found(servers: Seq<ServerConfig>, index: int, upto: int)
    requires
        0 <= index < upto,
        first_server_error(servers, index) is None,
        server_error(servers, index) is Some,
    ensures
        first_server_error(servers, upto) == server_error(servers, index),
    decreases upto,
{
    if upto > index + 1 {
        lemma_first_error_found(servers, index, upto - 1);
    }
}

/// Where the first servers have no error, none of them has one.
pub proof fn lemma_valid_servers(servers: Seq<ServerConfig>, upto: int)
    requires
        0 <= upto <= servers.len(),
        first_server_error(servers, upto) is None,
    ensures
        forall|i: int| 0 <= i < upto ==> #[trigger] server_error(servers, i) is None,
    decreases upto,
{
    if upto > 0 {
        lemma_valid_servers(servers, upto - 1);
    }
}

} // verus!
