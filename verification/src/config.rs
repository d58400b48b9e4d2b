//! Server lists as they are written on a command line: entries of the form
//! `name:latency_ms[:weight]`, one by one or separated by commas.

use vstd::prelude::*;
use vstd::std_specs::convert::FromSpecImpl;
use vstd::string::StringExecFns;
use crate::error::{ErrorModel, SimError};
use crate::models::{
    AlgoConfig, RequestProfile, ServerConfig, ServerModel, SimConfig, TieBreakConfig,
};
use crate::text::{
    chars_of, lemma_trim_settles, parse_number, parse_unsigned, pieces, split_chars, string_of,
    texts, trim_chars, trimmed,
};

verus! {

/// What one entry denotes. The entry is trimmed; an empty one is refused.
/// It has two or three fields between colons, each trimmed: a name, a
/// latency and, if there is a third, a weight; none may be empty. The
/// latency must be a number above zero that fits 64 bits, the weight one
/// that fits 32 bits; without a weight field the weight is 1. Each error
/// carries the trimmed entry.
pub open spec fn parse_entry(entry: Seq<char>) -> Result<ServerModel, ErrorModel> {
    let text = trimmed(entry);
    let fields = pieces(text, ':');
    let name = trimmed(fields[0]);
    let latency = if fields.len() > 1 {
        trimmed(fields[1])
    } else {
        Seq::<char>::empty()
    };
    if text.len() == 0 {
        Err(ErrorModel::EmptyServerEntry)
    } else if fields.len() > 3 {
        Err(ErrorModel::InvalidServerEntry(text))
    } else if name.len() == 0 || latency.len() == 0 || (fields.len() == 3 && trimmed(
        fields[2],
    ).len() == 0) {
        Err(ErrorModel::InvalidServerEntry(text))
    } else {
        match parse_unsigned(latency, u64::MAX as int) {
            None => Err(ErrorModel::InvalidLatency(text)),
            Some(latency_ms) => if latency_ms == 0 {
                Err(ErrorModel::InvalidLatencyValue(text))
            } else {
                let weight = if fields.len() == 3 {
                    parse_unsigned(trimmed(fields[2]), u32::MAX as int)
                } else {
                    Some(1int)
                };
                match weight {
                    None => Err(ErrorModel::InvalidWeight(text)),
                    Some(weight) => if weight == 0 {
                        Err(ErrorModel::InvalidWeightValue(text))
                    } else {
                        Ok(
                            ServerModel {
                                name,
                                base_latency_ms: latency_ms as u64,
                                weight: weight as u32,
                            },
                        )
                    },
                }
            },
        }
    }
}

/// Reads one trimmed entry, given as characters.
fn parse_trimmed_entry(text: &Vec<char>) -> (outcome: Result<ServerConfig, SimError>)
    requires
        text@ == trimmed(text@),
    ensures
        match outcome {
            Ok(server) => parse_entry(text@) == Ok::<ServerModel, ErrorModel>(server@),
            Err(error) => parse_entry(text@) == Err::<ServerModel, ErrorModel>(error@),
        },
{
    if text.len() == 0 {
        return Err(SimError::EmptyServerEntry);
    }
    let fields: Vec<Vec<char>> = split_chars(text, ':');
    proof {
        assert(texts(fields@)[0] == fields@[0]@);
    }
    if fields.len() > 3 {
        return Err(SimError::InvalidServerEntry(string_of(text)));
    }
    let name: Vec<char> = trim_chars(&fields[0]);
    let latency: Vec<char> = if fields.len() > 1 {
        proof {
            assert(texts(fields@)[1] == fields@[1]@);
        }
        trim_chars(&fields[1])
    } else {
        Vec::new()
    };
    let weight: Option<Vec<char>> = if fields.len() == 3 {
        proof {
            assert(texts(fields@)[2] == fields@[2]@);
        }
        Some(trim_chars(&fields[2]))
    } else {
        None
    };
    let weight_empty: bool = match &weight {
        Some(field) => field.len() == 0,
        None => false,
    };
    if name.len() == 0 || latency.len() == 0 || weight_empty {
        return Err(SimError::InvalidServerEntry(string_of(text)));
    }
    let latency_ms: u64 = match parse_number(&latency, u64::MAX) {
        Some(value) => value,
        None => {
            return Err(SimError::InvalidLatency(string_of(text)));
        },
    };
    if latency_ms == 0 {
        return Err(SimError::InvalidLatencyValue(string_of(text)));
    }
    let weight_value: u32 = match &weight {
        Some(field) => match parse_number(field, 0xffff_ffff) {
            Some(value) => value as u32,
            None => {
                return Err(SimError::InvalidWeight(string_of(text)));
            },
        },
        None => 1,
    };
    if weight_value == 0 {
        return Err(SimError::InvalidWeightValue(string_of(text)));
    }
    Ok(ServerConfig { name: string_of(&name), base_latency_ms: latency_ms, weight: weight_value })
}

/// Reads one server entry `name:latency_ms[:weight]`.
pub fn parse_server_entry(entry: &str) -> (outcome: Result<ServerConfig, SimError>)
    ensures
        match outcome {
            Ok(server) => parse_entry(entry@) == Ok::<ServerModel, ErrorModel>(server@),
            Err(error) => parse_entry(entry@) == Err::<ServerModel, ErrorModel>(error@),
        },
{
    let chars: Vec<char> = chars_of(entry);
    let text: Vec<char> = trim_chars(&chars);
    proof {
        lemma_trim_settles(entry@);
    }
    parse_trimmed_entry(&text)
}

/// Every text of a list, trimmed.
pub open spec fn trimmed_all(entries: Seq<Seq<char>>) -> Seq<Seq<char>> {
    entries.map_values(|entry: Seq<char>| trimmed(entry))
}

/// One of the texts is empty.
pub open spec fn has_empty(entries: Seq<Seq<char>>) -> bool {
    exists|i: int| 0 <= i < entries.len() && (#[trigger] entries[i]).len() == 0
}

/// The entries of a server list: those between the commas of `csv`, then
/// those of `listed`, all trimmed. A blank `csv` is refused as an empty
/// server list, an empty entry as such, and no entries at all as an empty
/// server list.
pub open spec fn collect_entries(listed: Seq<Seq<char>>, csv: Option<Seq<char>>) -> Result<
    Seq<Seq<char>>,
    ErrorModel,
> {
    let from_csv = match csv {
        Some(text) => trimmed_all(pieces(text, ',')),
        None => Seq::<Seq<char>>::empty(),
    };
    let from_list = trimmed_all(listed);
    if csv matches Some(text) && trimmed(text).len() == 0 {
        Err(ErrorModel::EmptyServers)
    } else if has_empty(from_csv) || has_empty(from_list) {
        Err(ErrorModel::EmptyServerEntry)
    } else if from_csv.len() + from_list.len() == 0 {
        Err(ErrorModel::EmptyServers)
    } else {
        Ok(from_csv + from_list)
    }
}

/// One of the servers has this name.
pub open spec fn name_listed(servers: Seq<ServerModel>, name: Seq<char>) -> bool {
    exists|i: int| 0 <= i < servers.len() && (#[trigger] servers[i]).name == name
}

/// The servers that the first `upto` entries denote, or the first error: an
/// entry's own, or a name that an earlier entry has.
pub open spec fn parse_entries(entries: Seq<Seq<char>>, upto: int) -> Result<
    Seq<ServerModel>,
    ErrorModel,
>
    decreases upto,
{
    if upto <= 0 {
        Ok(Seq::empty())
    } else {
        match parse_entries(entries, upto - 1) {
            Err(error) => Err(error),
            Ok(servers) => match parse_entry(entries[upto - 1]) {
                Err(error) => Err(error),
                Ok(server) => if name_listed(servers, server.name) {
                    Err(ErrorModel::DuplicateServerName(server.name))
                } else {
                    Ok(servers.push(server))
                },
            },
        }
    }
}

/// What a server list denotes: its entries are collected first, then read
/// in order.
pub open spec fn parse_server_list(listed: Seq<Seq<char>>, csv: Option<Seq<char>>) -> Result<
    Seq<ServerModel>,
    ErrorModel,
> {
    match collect_entries(listed, csv) {
        Err(error) => Err(error),
        Ok(entries) => parse_entries(entries, entries.len() as int),
    }
}

/// The servers of a list as plain values.
pub open spec fn server_models(servers: Seq<ServerConfig>) -> Seq<ServerModel> {
    servers.map_values(|server: ServerConfig| server@)
}

/// The texts of some strings.
pub open spec fn string_texts(strings: Seq<String>) -> Seq<Seq<char>> {
    strings.map_values(|text: String| text@)
}

proof fn lemma_texts_push(parts: Seq<Vec<char>>, part: Vec<char>)
    ensures
        texts(parts.push(part)) == texts(parts).push(part@),
{
    assert(texts(parts.push(part)) =~= texts(parts).push(part@));
}

/// Trims every piece and adds it to the entries; `false` at the first
/// piece that is empty once trimmed.
fn collect_trimmed(entries: &mut Vec<Vec<char>>, found: &Vec<Vec<char>>) -> (complete: bool)
    ensures
        complete == !has_empty(trimmed_all(texts(found@))),
        complete ==> texts(final(entries)@) == texts(old(entries)@) + trimmed_all(texts(found@)),
{
    let ghost before = texts(entries@);
    let mut idx: usize = 0;
    while idx < found.len()
        invariant
            idx <= found.len(),
            before == texts(old(entries)@),
            texts(entries@) == before + trimmed_all(texts(found@)).take(idx as int),
            forall|i: int| 0 <= i < idx ==> (#[trigger] trimmed_all(texts(found@))[i]).len() > 0,
        decreases found.len() - idx,
    {
        let kept: Vec<char> = trim_chars(&found[idx]);
        proof {
            assert(trimmed_all(texts(found@))[idx as int] == kept@);
        }
        if kept.len() == 0 {
            return false;
        }
        proof {
            let wanted = trimmed_all(texts(found@));
            lemma_texts_push(entries@, kept);
            assert(wanted.take(idx as int + 1) =~= wanted.take(idx as int).push(wanted[idx as int]));
            assert(before + wanted.take(idx as int).push(kept@) =~= (before + wanted.take(
                idx as int,
            )).push(kept@));
        }
        entries.push(kept);
        idx += 1;
    }
    proof {
        assert(trimmed_all(texts(found@)).take(idx as int) =~= trimmed_all(texts(found@)));
    }
    true
}

/// Whether one of the servers has this name.
fn name_in(servers: &Vec<ServerConfig>, name: &String) -> (listed: bool)
    ensures
        listed == name_listed(server_models(servers@), name@),
{
    let mut idx: usize = 0;
    while idx < servers.len()
        invariant
            idx <= servers.len(),
            forall|i: int| 0 <= i < idx ==> (#[trigger] server_models(servers@)[i]).name != name@,
        decreases servers.len() - idx,
    {
        if servers[idx].name == *name {
            proof {
                assert(server_models(servers@)[idx as int].name == name@);
            }
            return true;
        }
        idx += 1;
    }
    false
}

proof fn lemma_first_entry_error(entries: Seq<Seq<char>>, index: int, upto: int)
    requires
        0 <= index < upto,
        parse_entries(entries, index + 1) is Err,
    ensures
        parse_entries(entries, upto) == parse_entries(entries, index + 1),
    decreases upto,
{
    if upto > index + 1 {
        lemma_first_entry_error(entries, index, upto - 1);
    }
}

/// Reads a server list: the entries of `servers_csv`, separated by commas,
/// then those of `server_entries`.
pub fn parse_server_args(server_entries: &[String], servers_csv: Option<&str>) -> (outcome: Result<
    Vec<ServerConfig>,
    SimError,
>)
    ensures
        match outcome {
            Ok(servers) => parse_server_list(
                string_texts(server_entries@),
                match servers_csv {
                    Some(csv) => Some(csv@),
                    None => None,
                },
            ) == Ok::<Seq<ServerModel>, ErrorModel>(server_models(servers@)),
            Err(error) => parse_server_list(
                string_texts(server_entries@),
                match servers_csv {
                    Some(csv) => Some(csv@),
                    None => None,
                },
            ) == Err::<Seq<ServerModel>, ErrorModel>(error@),
        },
{
    let mut entries: Vec<Vec<char>> = Vec::new();
    let ghost from_csv = match servers_csv {
        Some(csv) => trimmed_all(pieces(csv@, ',')),
        None => Seq::<Seq<char>>::empty(),
    };
    proof {
        assert(texts(entries@) =~= Seq::<Seq<char>>::empty());
    }
    match servers_csv {
        Some(csv) => {
            let chars: Vec<char> = chars_of(csv);
            if trim_chars(&chars).len() == 0 {
                return Err(SimError::EmptyServers);
            }
            let found: Vec<Vec<char>> = split_chars(&chars, ',');
            if !collect_trimmed(&mut entries, &found) {
                return Err(SimError::EmptyServerEntry);
            }
        },
        None => {},
    }
    proof {
        assert(texts(entries@) =~= from_csv);
    }
    let mut listed: Vec<Vec<char>> = Vec::new();
    let mut idx: usize = 0;
    while idx < server_entries.len()
        invariant
            idx <= server_entries.len(),
            texts(listed@) == string_texts(server_entries@).take(idx as int),
        decreases server_entries.len() - idx,
    {
        let chars: Vec<char> = chars_of(server_entries[idx].as_str());
        proof {
            let wanted = string_texts(server_entries@);
            lemma_texts_push(listed@, chars);
            assert(wanted.take(idx as int + 1) =~= wanted.take(idx as int).push(wanted[idx as int]));
        }
        listed.push(chars);
        idx += 1;
    }
    proof {
        assert(string_texts(server_entries@).take(idx as int) =~= string_texts(server_entries@));
    }
    if !collect_trimmed(&mut entries, &listed) {
        return Err(SimError::EmptyServerEntry);
    }
    if entries.len() == 0 {
        return Err(SimError::EmptyServers);
    }
    let ghost all = texts(entries@);
    let ghost csv_text: Option<Seq<char>> = match servers_csv {
        Some(csv) => Some(csv@),
        None => None,
    };
    proof {
        assert(all =~= from_csv + trimmed_all(string_texts(server_entries@)));
        assert(collect_entries(string_texts(server_entries@), csv_text) == Ok::<
            Seq<Seq<char>>,
            ErrorModel,
        >(all));
    }
    let mut servers: Vec<ServerConfig> = Vec::new();
    let mut next: usize = 0;
    proof {
        assert(server_models(servers@) =~= Seq::<ServerModel>::empty());
    }
    while next < entries.len()
        invariant
            next <= entries.len(),
            all == texts(entries@),
            all == from_csv + trimmed_all(string_texts(server_entries@)),
            csv_text == match servers_csv {
                Some(csv) => Some(csv@),
                None => None,
            },
            from_csv == match csv_text {
                Some(csv) => trimmed_all(pieces(csv, ',')),
                None => Seq::<Seq<char>>::empty(),
            },
            collect_entries(string_texts(server_entries@), csv_text) == Ok::<
                Seq<Seq<char>>,
                ErrorModel,
            >(all),
            parse_entries(all, next as int) == Ok::<Seq<ServerModel>, ErrorModel>(
                server_models(servers@),
            ),
        decreases entries.len() - next,
    {
        proof {
            assert(all[next as int] == entries@[next as int]@);
            lemma_entry_is_trimmed(from_csv, string_texts(server_entries@), next as int, csv_text);
        }
        let server: ServerConfig = match parse_trimmed_entry(&entries[next]) {
            Ok(server) => server,
            Err(error) => {
                proof {
                    lemma_first_entry_error(all, next as int, all.len() as int);
                }
                return Err(error);
            },
        };
        if name_in(&servers, &server.name) {
            proof {
                lemma_first_entry_error(all, next as int, all.len() as int);
            }
            return Err(SimError::DuplicateServerName(server.name));
        }
        proof {
            assert(server_models(servers@.push(server)) =~= server_models(servers@).push(server@));
        }
        servers.push(server);
        next += 1;
    }
    Ok(servers)
}

proof fn lemma_entry_is_trimmed(
    from_csv: Seq<Seq<char>>,
    listed: Seq<Seq<char>>,
    index: int,
    csv_text: Option<Seq<char>>,
)
    requires
        from_csv == match csv_text {
            Some(csv) => trimmed_all(pieces(csv, ',')),
            None => Seq::<Seq<char>>::empty(),
        },
        0 <= index < (from_csv + trimmed_all(listed)).len(),
    ensures
        trimmed((from_csv + trimmed_all(listed))[index]) == (from_csv + trimmed_all(listed))[index],
{
    if index < from_csv.len() {
        let csv = csv_text->0;
        lemma_trim_settles(pieces(csv, ',')[index]);
    } else {
        lemma_trim_settles(listed[index - from_csv.len()]);
    }
}

/// A policy as it is named on the command line.
#[derive(Clone, Copy, Debug, PartialEq, Eq, Structural)]
pub enum AlgoArg {
    RoundRobin,
    WeightedRoundRobin,
    LeastConnections,
    LeastResponseTime,
}

/// An output format as it is named on the command line.
#[derive(Clone, Copy, Debug, PartialEq, Eq, Structural)]
pub enum FormatArg {
    Human,
    Summary,
    Json,
}

/// The command line, parsed into its flags.
#[derive(Debug)]
pub struct Args {
    pub algo: Option<AlgoArg>,
    /// Server entries separated by commas.
    pub servers: Option<String>,
    /// Server entries given one by one.
    pub server: Vec<String>,
    pub requests: Option<usize>,
    pub summary: bool,
    pub format: FormatArg,
    pub seed: Option<u64>,
    /// The path of a configuration file.
    pub config: Option<String>,
}

impl From<AlgoArg> for AlgoConfig {
    fn from(value: AlgoArg) -> (algo: AlgoConfig) {
        match value {
            AlgoArg::RoundRobin => AlgoConfig::RoundRobin,
            AlgoArg::WeightedRoundRobin => AlgoConfig::WeightedRoundRobin,
            AlgoArg::LeastConnections => AlgoConfig::LeastConnections,
            AlgoArg::LeastResponseTime => AlgoConfig::LeastResponseTime,
        }
    }
}

/// The policy that a command-line name stands for.
pub open spec fn algo_of(value: AlgoArg) -> AlgoConfig {
    match value {
        AlgoArg::RoundRobin => AlgoConfig::RoundRobin,
        AlgoArg::WeightedRoundRobin => AlgoConfig::WeightedRoundRobin,
        AlgoArg::LeastConnections => AlgoConfig::LeastConnections,
        AlgoArg::LeastResponseTime => AlgoConfig::LeastResponseTime,
    }
}

impl FromSpecImpl<AlgoArg> for AlgoConfig {
    open spec fn obeys_from_spec() -> bool {
        true
    }

    open spec fn from_spec(value: AlgoArg) -> AlgoConfig {
        algo_of(value)
    }
}

/// The output format that the flags ask for: `--summary` wins over `--format`.
pub open spec fn format_of(args: Args) -> FormatArg {
    if args.summary {
        FormatArg::Summary
    } else {
        args.format
    }
}

/// The tie-break that a seed asks for: seeded with one, stable without.
pub open spec fn tie_break_for(seed: Option<u64>) -> TieBreakConfig {
    if seed is Some {
        TieBreakConfig::Seeded
    } else {
        TieBreakConfig::Stable
    }
}

/// The flags name servers, one by one or in a list.
pub open spec fn names_servers(args: Args) -> bool {
    args.server@.len() > 0 || args.servers is Some
}

/// What the server flags denote.
pub open spec fn servers_of(args: Args) -> Result<Seq<ServerModel>, ErrorModel> {
    parse_server_list(
        string_texts(args.server@),
        match args.servers {
            Some(csv) => Some(csv@),
            None => None,
        },
    )
}

/// What the flags are refused for. Without a configuration file the policy
/// and the request count are required, in this order, and the servers must
/// be well written; with one, servers are read only where the flags name any.
pub open spec fn flags_error(args: Args, with_base: bool) -> Option<ErrorModel> {
    if !with_base && args.algo is None {
        Some(ErrorModel::Cli("missing required --algo"@))
    } else if !with_base && args.requests is None {
        Some(ErrorModel::Cli("missing required --requests"@))
    } else if !with_base || names_servers(args) {
        match servers_of(args) {
            Err(error) => Some(error),
            Ok(_) => None,
        }
    } else {
        None
    }
}

/// `config` is the configuration that the flags make of `base`: each flag
/// that is given replaces what the configuration file says, a seed switches
/// to the seeded tie-break, and the history is kept unless only the summary
/// is asked for. Without a configuration file a run is concurrent.
pub open spec fn configured(args: Args, base: Option<SimConfig>, config: SimConfig) -> bool {
    &&& config.algo == match args.algo {
        Some(algo) => algo_of(algo),
        None => base->0.algo,
    }
    &&& config.requests == match args.requests {
        Some(count) => RequestProfile::FixedCount(count),
        None => base->0.requests,
    }
    &&& server_models(config.servers@) == if base is None || names_servers(args) {
        servers_of(args)->Ok_0
    } else {
        server_models(base->0.servers@)
    }
    &&& config.seed == if args.seed is Some || base is None {
        args.seed
    } else {
        base->0.seed
    }
    &&& config.tie_break == if args.seed is Some || base is None {
        tie_break_for(args.seed)
    } else {
        base->0.tie_break
    }
    &&& config.store_assignments == (format_of(args) != FormatArg::Summary)
    &&& config.serialized_service == (base matches Some(file) && file.serialized_service)
}

/// The output format that the flags ask for.
pub fn format_arg(args: &Args) -> (format: FormatArg)
    ensures
        format == format_of(*args),
{
    if args.summary {
        FormatArg::Summary
    } else {
        args.format
    }
}

/// A configuration of a concurrent run with a fixed number of requests and
/// the full history.
pub fn create_config(
    servers: Vec<ServerConfig>,
    requests: usize,
    algo: AlgoArg,
    tie_break: TieBreakConfig,
    seed: Option<u64>,
) -> (config: SimConfig)
    ensures
        config.servers == servers,
        config.requests == RequestProfile::FixedCount(requests),
        config.algo == algo_of(algo),
        config.tie_break == tie_break,
        config.seed == seed,
        config.store_assignments,
        !config.serialized_service,
{
    SimConfig {
        servers,
        requests: RequestProfile::FixedCount(requests),
        algo: AlgoConfig::from(algo),
        tie_break,
        seed,
        store_assignments: true,
        serialized_service: false,
    }
}

/// Makes the configuration of a run from the flags and, where a
/// configuration file was given, from what the file holds.
pub fn build_config(args: &Args, base: Option<SimConfig>) -> (outcome: Result<
    (SimConfig, FormatArg),
    SimError,
>)
    ensures
        match outcome {
            Ok((config, format)) => {
                &&& flags_error(*args, base is Some) is None
                &&& format == format_of(*args)
                &&& configured(*args, base, config)
            },
            Err(error) => flags_error(*args, base is Some) == Some(error@),
        },
{
    let format: FormatArg = format_arg(args);
    let keep_history: bool = match format {
        FormatArg::Summary => false,
        _ => true,
    };
    let csv: Option<&str> = match &args.servers {
        Some(text) => Some(text.as_str()),
        None => None,
    };
    match base {
        None => {
            let algo: AlgoArg = match args.algo {
                Some(algo) => algo,
                None => {
                    return Err(SimError::Cli(String::from_str("missing required --algo")));
                },
            };
            let requests: usize = match args.requests {
                Some(requests) => requests,
                None => {
                    return Err(SimError::Cli(String::from_str("missing required --requests")));
                },
            };
            let servers: Vec<ServerConfig> = match parse_server_args(args.server.as_slice(), csv) {
                Ok(servers) => servers,
                Err(error) => {
                    return Err(error);
                },
            };
            let tie_break: TieBreakConfig = if args.seed.is_some() {
                TieBreakConfig::Seeded
            } else {
                TieBreakConfig::Stable
            };
            let mut config = create_config(servers, requests, algo, tie_break, args.seed);
            config.store_assignments = keep_history;
            Ok((config, format))
        },
        Some(file) => {
            let mut config: SimConfig = file;
            match args.algo {
                Some(algo) => {
                    config.algo = AlgoConfig::from(algo);
                },
                None => {},
            }
            match args.requests {
                Some(requests) => {
                    config.requests = RequestProfile::FixedCount(requests);
                },
                None => {},
            }
            if args.server.len() > 0 || args.servers.is_some() {
                match parse_server_args(args.server.as_slice(), csv) {
                    Ok(servers) => {
                        config.servers = servers;
                    },
                    Err(error) => {
                        return Err(error);
                    },
                }
            }
            if args.seed.is_some() {
                config.seed = args.seed;
                config.tie_break = TieBreakConfig::Seeded;
            }
            config.store_assignments = keep_history;
            Ok((config, format))
        },
    }
}

} // verus!
