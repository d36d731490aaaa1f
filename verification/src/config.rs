//! Node configuration from environment variables.
//!
//! Variables:
//! - `RUSTKV_NODE_ID`            — this node's id (default 1)
//! - `RUSTKV_LISTEN`             — client API address (default 127.0.0.1:8080)
//! - `RUSTKV_RAFT_LISTEN`        — raft RPC address (default 127.0.0.1:9080)
//! - `RUSTKV_DATA_DIR`           — log + hard state (default ./rustkv-data)
//! - `RUSTKV_PEERS`              — other members' raft addresses:
//!   `2=host:port,3=host:port` (empty/unset = single-node cluster)
//! - `RUSTKV_PEER_CLIENT_URLS`   — other members' client base URLs for write
//!   redirects: `2=http://host:port,...` (optional; without it, non-leaders
//!   answer 503 instead of 307)
//! - `RUSTKV_SNAPSHOT_THRESHOLD` — compact the log every N applied entries
//!   (>= 1; unset = snapshotting off, the default)
//! - `RUSTKV_SNAPSHOT_TRAILING`  — keep the snapshot boundary at least N
//!   applied entries behind (default 0)
//! - `RUSTKV_JOIN`               — `1`/`true`: start as a joiner, with an
//!   empty membership
//! - `RUSTKV_ADVERTISE_RAFT_ADDR`  — the raft address OTHER nodes should
//!   dial for this node (default: RUSTKV_RAFT_LISTEN)
//! - `RUSTKV_ADVERTISE_CLIENT_URL` — the client base URL peers should
//!   redirect to for this node (default: `http://{RUSTKV_LISTEN}`)
//! - `RUSTKV_MAX_APPEND_BYTES`   — byte budget for one AppendEntries batch
//!   (default 1 MiB; `0` = unbounded)
//! - `RUSTKV_SNAPSHOT_CHUNK_BYTES` — InstallSnapshot chunk size (default
//!   4 MiB; `0` = single-shot)
//! - `RUSTKV_RPC_TIMEOUT_MS`     — per-RPC budget for node-to-node calls
//!   (default 150)
//! - `RUSTKV_ASSUMED_BANDWIDTH`  — assumed node-to-node bandwidth in
//!   bytes/sec (default 8388608 = 8 MiB/s). An RPC whose body exceeds 64 KiB
//!   gets `RUSTKV_RPC_TIMEOUT_MS + body/bandwidth` as its budget. `0` = flat
//!   timeout for everything

use std::collections::HashMap;

use vstd::prelude::*;
use vstd::string::*;

use crate::raft::membership::{ascending, AddrModel, MemberAddr, Membership};
use crate::raft::types::NodeId;
use crate::text::{
    chars_of, decimal, decimal_string, find_char, first_index, number, parse_number, parse_text,
    quote, quoted, same_text, split, split_bounds, text_of, trim, trim_bounds,
};

verus! {

broadcast use vstd::std_specs::hash::group_hash_axioms;

#[derive(Debug, Clone, PartialEq, Eq)]
pub struct NodeConfig {
    pub id: NodeId,
    pub listen: String,
    pub raft_listen: String,
    pub data_dir: String,
    pub peers: HashMap<NodeId, String>,
    pub peer_client_urls: HashMap<NodeId, String>,
    pub snapshot_threshold: Option<u64>,
    pub snapshot_trailing: u64,
    /// Byte budget for one AppendEntries batch. `None` = unbounded, reachable
    /// only by an explicit `0`.
    pub max_append_bytes: Option<usize>,
    /// InstallSnapshot chunk size. `None` = single-shot, reachable only by an
    /// explicit `0`.
    pub snapshot_chunk_bytes: Option<usize>,
    pub join: bool,
    /// Per-RPC budget for node-to-node calls, in milliseconds.
    pub rpc_timeout_ms: u64,
    /// Assumed node-to-node bandwidth in bytes/sec for the size-aware RPC
    /// timeout. `None` = flat timeout, reachable only by an explicit `0`.
    pub assumed_bandwidth: Option<u64>,
    /// What OTHER nodes dial/redirect to for this node.
    pub advertise_raft_addr: String,
    pub advertise_client_url: String,
}

/// A configuration, by its texts and maps.
#[verifier::ext_equal]
pub struct ConfigModel {
    pub id: NodeId,
    pub listen: Seq<char>,
    pub raft_listen: Seq<char>,
    pub data_dir: Seq<char>,
    pub peers: Map<NodeId, Seq<char>>,
    pub peer_client_urls: Map<NodeId, Seq<char>>,
    pub snapshot_threshold: Option<u64>,
    pub snapshot_trailing: u64,
    pub max_append_bytes: Option<usize>,
    pub snapshot_chunk_bytes: Option<usize>,
    pub join: bool,
    pub rpc_timeout_ms: u64,
    pub assumed_bandwidth: Option<u64>,
    pub advertise_raft_addr: Seq<char>,
    pub advertise_client_url: Seq<char>,
}

/// A table of texts.
pub open spec fn texts(table: Map<NodeId, String>) -> Map<NodeId, Seq<char>> {
    Map::new(|id: NodeId| table.contains_key(id), |id: NodeId| table[id]@)
}

impl View for NodeConfig {
    type V = ConfigModel;

    open spec fn view(&self) -> ConfigModel {
        ConfigModel {
            id: self.id,
            listen: self.listen@,
            raft_listen: self.raft_listen@,
            data_dir: self.data_dir@,
            peers: texts(self.peers@),
            peer_client_urls: texts(self.peer_client_urls@),
            snapshot_threshold: self.snapshot_threshold,
            snapshot_trailing: self.snapshot_trailing,
            max_append_bytes: self.max_append_bytes,
            snapshot_chunk_bytes: self.snapshot_chunk_bytes,
            join: self.join,
            rpc_timeout_ms: self.rpc_timeout_ms,
            assumed_bandwidth: self.assumed_bandwidth,
            advertise_raft_addr: self.advertise_raft_addr@,
            advertise_client_url: self.advertise_client_url@,
        }
    }
}

/// The variables as they were found; `None` where one is not set.
pub struct Vars {
    pub node_id: Option<String>,
    pub listen: Option<String>,
    pub raft_listen: Option<String>,
    pub data_dir: Option<String>,
    pub peers: Option<String>,
    pub peer_client_urls: Option<String>,
    pub snapshot_threshold: Option<String>,
    pub snapshot_trailing: Option<String>,
    pub max_append_bytes: Option<String>,
    pub snapshot_chunk_bytes: Option<String>,
    pub rpc_timeout_ms: Option<String>,
    pub assumed_bandwidth: Option<String>,
    pub join: Option<String>,
    pub advertise_raft_addr: Option<String>,
    pub advertise_client_url: Option<String>,
}

/// The text of a variable, or `default`.
pub open spec fn or_text(var: Option<String>, default: Seq<char>) -> Seq<char> {
    match var {
        Some(raw) => raw@,
        None => default,
    }
}

/// A variable that holds a number of at least `least`.
pub open spec fn number_var(
    var: Option<String>,
    least: u64,
    default: u64,
    complaint: Seq<char>,
) -> Result<u64, Seq<char>> {
    match var {
        None => Ok(default),
        Some(raw) => match number(raw@) {
            Some(n) if n >= least => Ok(n),
            _ => Err(complaint + ", got "@ + quoted(raw@)),
        },
    }
}

/// A variable that holds a number of at least `least`, with no default.
pub open spec fn optional_var(
    var: Option<String>,
    least: u64,
    complaint: Seq<char>,
) -> Result<Option<u64>, Seq<char>> {
    match var {
        None => Ok(None),
        Some(raw) => match number(raw@) {
            Some(n) if n >= least => Ok(Some(n)),
            _ => Err(complaint + ", got "@ + quoted(raw@)),
        },
    }
}

/// A variable that holds a limit, where 0 stands for none, up to `most`.
pub open spec fn limit_var(
    var: Option<String>,
    most: int,
    default: u64,
    complaint: Seq<char>,
) -> Result<Option<u64>, Seq<char>> {
    match var {
        None => Ok(Some(default)),
        Some(raw) => match number(raw@) {
            Some(n) if n <= most => if n == 0 {
                Ok(None)
            } else {
                Ok(Some(n))
            },
            _ => Err(complaint + ", got "@ + quoted(raw@)),
        },
    }
}

/// A size limit as a machine size.
pub open spec fn as_size(limit: Option<u64>) -> Option<usize> {
    match limit {
        Some(n) => Some(n as usize),
        None => None,
    }
}

/// A yes-or-no variable.
pub open spec fn flag_var(var: Option<String>) -> Result<bool, Seq<char>> {
    match var {
        None => Ok(false),
        Some(raw) => if raw@ == ""@ || raw@ == "0"@ || raw@ == "false"@ {
            Ok(false)
        } else if raw@ == "1"@ || raw@ == "true"@ {
            Ok(true)
        } else {
            Err("RUSTKV_JOIN must be 0/1/true/false, got "@ + quoted(raw@))
        },
    }
}

/// One `id=value` entry.
pub open spec fn peer_entry(entry: Seq<char>) -> Result<(NodeId, Seq<char>), Seq<char>> {
    match first_index(entry, '=') {
        None => Err("expected id=value, got "@ + quoted(entry)),
        Some(i) => match number(trim(entry.take(i))) {
            None => Err("bad node id in "@ + quoted(entry)),
            Some(id) => Ok((id, trim(entry.skip(i + 1)))),
        },
    }
}

/// The table that a list of pieces makes: blank pieces are skipped, the first
/// bad or repeated one is the error.
pub open spec fn peer_table(pieces: Seq<Seq<char>>) -> Result<Map<NodeId, Seq<char>>, Seq<char>>
    decreases pieces.len(),
{
    if pieces.len() == 0 {
        Ok(Map::empty())
    } else {
        match peer_table(pieces.drop_last()) {
            Err(e) => Err(e),
            Ok(table) => if trim(pieces.last()).len() == 0 {
                Ok(table)
            } else {
                match peer_entry(trim(pieces.last())) {
                    Err(e) => Err(e),
                    Ok((id, value)) => if table.contains_key(id) {
                        Err("duplicate node id "@ + decimal(id as nat))
                    } else {
                        Ok(table.insert(id, value))
                    },
                }
            },
        }
    }
}

/// The table that `1=value,2=value` stands for.
pub open spec fn peer_map(raw: Seq<char>) -> Result<Map<NodeId, Seq<char>>, Seq<char>> {
    peer_table(split(raw, ','))
}

/// A table variable; its error names it.
pub open spec fn peers_var(var: Option<String>, name: Seq<char>) -> Result<
    Map<NodeId, Seq<char>>,
    Seq<char>,
> {
    match peer_map(or_text(var, Seq::empty())) {
        Ok(table) => Ok(table),
        Err(e) => Err(name + ": "@ + e),
    }
}

impl Vars {
    pub open spec fn id(self) -> Result<u64, Seq<char>> {
        number_var(self.node_id, 0, 1, "RUSTKV_NODE_ID must be a number"@)
    }

    pub open spec fn peer_addrs(self) -> Result<Map<NodeId, Seq<char>>, Seq<char>> {
        peers_var(self.peers, "RUSTKV_PEERS"@)
    }

    pub open spec fn client_urls(self) -> Result<Map<NodeId, Seq<char>>, Seq<char>> {
        peers_var(self.peer_client_urls, "RUSTKV_PEER_CLIENT_URLS"@)
    }

    pub open spec fn threshold(self) -> Result<Option<u64>, Seq<char>> {
        optional_var(
            self.snapshot_threshold,
            1,
            "RUSTKV_SNAPSHOT_THRESHOLD must be a number >= 1"@,
        )
    }

    pub open spec fn trailing(self) -> Result<u64, Seq<char>> {
        number_var(
            self.snapshot_trailing,
            0,
            0,
            "RUSTKV_SNAPSHOT_TRAILING must be a number"@,
        )
    }

    pub open spec fn append_limit(self) -> Result<Option<u64>, Seq<char>> {
        limit_var(
            self.max_append_bytes,
            usize::MAX as int,
            0x10_0000,
            "RUSTKV_MAX_APPEND_BYTES must be a number (0 = unbounded)"@,
        )
    }

    pub open spec fn chunk_limit(self) -> Result<Option<u64>, Seq<char>> {
        limit_var(
            self.snapshot_chunk_bytes,
            usize::MAX as int,
            0x40_0000,
            "RUSTKV_SNAPSHOT_CHUNK_BYTES must be a number (0 = single-shot)"@,
        )
    }

    pub open spec fn timeout_ms(self) -> Result<u64, Seq<char>> {
        number_var(
            self.rpc_timeout_ms,
            1,
            150,
            "RUSTKV_RPC_TIMEOUT_MS must be a number >= 1"@,
        )
    }

    pub open spec fn bandwidth(self) -> Result<Option<u64>, Seq<char>> {
        limit_var(
            self.assumed_bandwidth,
            u64::MAX as int,
            0x80_0000,
            "RUSTKV_ASSUMED_BANDWIDTH must be bytes/sec (0 = flat timeout)"@,
        )
    }

    /// What is wrong with the variables: the first fault, in this order.
    pub open spec fn fault(self) -> Option<Seq<char>> {
        if self.id() is Err {
            Some(self.id()->Err_0)
        } else if self.peer_addrs() is Err {
            Some(self.peer_addrs()->Err_0)
        } else if self.client_urls() is Err {
            Some(self.client_urls()->Err_0)
        } else if self.threshold() is Err {
            Some(self.threshold()->Err_0)
        } else if self.trailing() is Err {
            Some(self.trailing()->Err_0)
        } else if self.append_limit() is Err {
            Some(self.append_limit()->Err_0)
        } else if self.chunk_limit() is Err {
            Some(self.chunk_limit()->Err_0)
        } else if self.timeout_ms() is Err {
            Some(self.timeout_ms()->Err_0)
        } else if self.bandwidth() is Err {
            Some(self.bandwidth()->Err_0)
        } else if flag_var(self.join) is Err {
            Some(flag_var(self.join)->Err_0)
        } else if self.peer_addrs()->Ok_0.contains_key(self.id()->Ok_0) {
            Some(
                "RUSTKV_PEERS must list only OTHER members, but contains this node's id "@
                    + decimal(self.id()->Ok_0 as nat),
            )
        } else {
            None
        }
    }

    /// The configuration that faultless variables describe.
    pub open spec fn config(self) -> ConfigModel {
        let listen = or_text(self.listen, "127.0.0.1:8080"@);
        let raft_listen = or_text(self.raft_listen, "127.0.0.1:9080"@);
        ConfigModel {
            id: self.id()->Ok_0,
            listen,
            raft_listen,
            data_dir: or_text(self.data_dir, "./rustkv-data"@),
            peers: self.peer_addrs()->Ok_0,
            peer_client_urls: self.client_urls()->Ok_0,
            snapshot_threshold: self.threshold()->Ok_0,
            snapshot_trailing: self.trailing()->Ok_0,
            max_append_bytes: as_size(self.append_limit()->Ok_0),
            snapshot_chunk_bytes: as_size(self.chunk_limit()->Ok_0),
            join: flag_var(self.join)->Ok_0,
            rpc_timeout_ms: self.timeout_ms()->Ok_0,
            assumed_bandwidth: self.bandwidth()->Ok_0,
            advertise_raft_addr: or_text(self.advertise_raft_addr, raft_listen),
            advertise_client_url: or_text(self.advertise_client_url, "http://"@ + listen),
        }
    }
}

/// Whether `get` answers `name` with `value`.
pub open spec fn answers<F: Fn(&str) -> Option<String>>(
    get: F,
    name: &str,
    value: Option<String>,
) -> bool {
    call_ensures(get, (name,), value)
}

/// Whether `vars` is what `get` answers.
pub open spec fn read_through<F: Fn(&str) -> Option<String>>(get: F, vars: Vars) -> bool {
    &&& answers(get, "RUSTKV_NODE_ID", vars.node_id)
    &&& answers(get, "RUSTKV_LISTEN", vars.listen)
    &&& answers(get, "RUSTKV_RAFT_LISTEN", vars.raft_listen)
    &&& answers(get, "RUSTKV_DATA_DIR", vars.data_dir)
    &&& answers(get, "RUSTKV_PEERS", vars.peers)
    &&& answers(get, "RUSTKV_PEER_CLIENT_URLS", vars.peer_client_urls)
    &&& answers(get, "RUSTKV_SNAPSHOT_THRESHOLD", vars.snapshot_threshold)
    &&& answers(get, "RUSTKV_SNAPSHOT_TRAILING", vars.snapshot_trailing)
    &&& answers(get, "RUSTKV_MAX_APPEND_BYTES", vars.max_append_bytes)
    &&& answers(get, "RUSTKV_SNAPSHOT_CHUNK_BYTES", vars.snapshot_chunk_bytes)
    &&& answers(get, "RUSTKV_RPC_TIMEOUT_MS", vars.rpc_timeout_ms)
    &&& answers(get, "RUSTKV_ASSUMED_BANDWIDTH", vars.assumed_bandwidth)
    &&& answers(get, "RUSTKV_JOIN", vars.join)
    &&& answers(get, "RUSTKV_ADVERTISE_RAFT_ADDR", vars.advertise_raft_addr)
    &&& answers(get, "RUSTKV_ADVERTISE_CLIENT_URL", vars.advertise_client_url)
}

/// Whether `get` can be asked for the documented names; no others are asked.
pub open spec fn answers_documented<F: Fn(&str) -> Option<String>>(get: F) -> bool {
    &&& call_requires(get, ("RUSTKV_NODE_ID",))
    &&& call_requires(get, ("RUSTKV_LISTEN",))
    &&& call_requires(get, ("RUSTKV_RAFT_LISTEN",))
    &&& call_requires(get, ("RUSTKV_DATA_DIR",))
    &&& call_requires(get, ("RUSTKV_PEERS",))
    &&& call_requires(get, ("RUSTKV_PEER_CLIENT_URLS",))
    &&& call_requires(get, ("RUSTKV_SNAPSHOT_THRESHOLD",))
    &&& call_requires(get, ("RUSTKV_SNAPSHOT_TRAILING",))
    &&& call_requires(get, ("RUSTKV_MAX_APPEND_BYTES",))
    &&& call_requires(get, ("RUSTKV_SNAPSHOT_CHUNK_BYTES",))
    &&& call_requires(get, ("RUSTKV_RPC_TIMEOUT_MS",))
    &&& call_requires(get, ("RUSTKV_ASSUMED_BANDWIDTH",))
    &&& call_requires(get, ("RUSTKV_JOIN",))
    &&& call_requires(get, ("RUSTKV_ADVERTISE_RAFT_ADDR",))
    &&& call_requires(get, ("RUSTKV_ADVERTISE_CLIENT_URL",))
}

/// Whether a configuration (or a complaint) is what `vars` call for.
pub open spec fn configures(vars: Vars, result: Result<NodeConfig, String>) -> bool {
    match result {
        Ok(config) => vars.fault() is None && config@ == vars.config(),
        Err(message) => vars.fault() == Some(message@),
    }
}

impl NodeConfig {
    /// Reads the variables through `get`, which is asked for the documented
    /// names and no others.
    pub fn from_vars(get: impl Fn(&str) -> Option<String>) -> (result: Result<Self, String>)
        requires
            answers_documented(get),
        ensures
            exists|vars: Vars| #[trigger] read_through(get, vars) && configures(vars, result),
    {
        let vars = Vars {
            node_id: get("RUSTKV_NODE_ID"),
            listen: get("RUSTKV_LISTEN"),
            raft_listen: get("RUSTKV_RAFT_LISTEN"),
            data_dir: get("RUSTKV_DATA_DIR"),
            peers: get("RUSTKV_PEERS"),
            peer_client_urls: get("RUSTKV_PEER_CLIENT_URLS"),
            snapshot_threshold: get("RUSTKV_SNAPSHOT_THRESHOLD"),
            snapshot_trailing: get("RUSTKV_SNAPSHOT_TRAILING"),
            max_append_bytes: get("RUSTKV_MAX_APPEND_BYTES"),
            snapshot_chunk_bytes: get("RUSTKV_SNAPSHOT_CHUNK_BYTES"),
            rpc_timeout_ms: get("RUSTKV_RPC_TIMEOUT_MS"),
            assumed_bandwidth: get("RUSTKV_ASSUMED_BANDWIDTH"),
            join: get("RUSTKV_JOIN"),
            advertise_raft_addr: get("RUSTKV_ADVERTISE_RAFT_ADDR"),
            advertise_client_url: get("RUSTKV_ADVERTISE_CLIENT_URL"),
        };
        let ghost seen = vars;
        assert(read_through(get, seen));
        Self::from_values(vars)
    }

    /// The configuration that the variables describe, or the first fault in
    /// them.
    pub fn from_values(vars: Vars) -> (result: Result<Self, String>)
        ensures
            configures(vars, result),
    {
        let ghost seen = vars;
        let id: u64 = match read_number(&vars.node_id, 0, 1, "RUSTKV_NODE_ID must be a number") {
            Ok(id) => id,
            Err(e) => {
                return Err(e);
            },
        };
        let peers = match read_peers(&vars.peers, "RUSTKV_PEERS") {
            Ok(peers) => peers,
            Err(e) => {
                return Err(e);
            },
        };
        let peer_client_urls = match read_peers(&vars.peer_client_urls, "RUSTKV_PEER_CLIENT_URLS") {
            Ok(urls) => urls,
            Err(e) => {
                return Err(e);
            },
        };
        let snapshot_threshold = match read_optional(
            &vars.snapshot_threshold,
            1,
            "RUSTKV_SNAPSHOT_THRESHOLD must be a number >= 1",
        ) {
            Ok(threshold) => threshold,
            Err(e) => {
                return Err(e);
            },
        };
        let snapshot_trailing: u64 = match read_number(
            &vars.snapshot_trailing,
            0,
            0,
            "RUSTKV_SNAPSHOT_TRAILING must be a number",
        ) {
            Ok(trailing) => trailing,
            Err(e) => {
                return Err(e);
            },
        };
        let max_append_bytes = match read_limit(
            &vars.max_append_bytes,
            usize::MAX as u64,
            0x10_0000,
            "RUSTKV_MAX_APPEND_BYTES must be a number (0 = unbounded)",
        ) {
            Ok(limit) => size_of_limit(limit),
            Err(e) => {
                return Err(e);
            },
        };
        let snapshot_chunk_bytes = match read_limit(
            &vars.snapshot_chunk_bytes,
            usize::MAX as u64,
            0x40_0000,
            "RUSTKV_SNAPSHOT_CHUNK_BYTES must be a number (0 = single-shot)",
        ) {
            Ok(limit) => size_of_limit(limit),
            Err(e) => {
                return Err(e);
            },
        };
        let rpc_timeout_ms: u64 = match read_number(
            &vars.rpc_timeout_ms,
            1,
            150,
            "RUSTKV_RPC_TIMEOUT_MS must be a number >= 1",
        ) {
            Ok(timeout) => timeout,
            Err(e) => {
                return Err(e);
            },
        };
        let assumed_bandwidth = match read_limit(
            &vars.assumed_bandwidth,
            u64::MAX,
            0x80_0000,
            "RUSTKV_ASSUMED_BANDWIDTH must be bytes/sec (0 = flat timeout)",
        ) {
            Ok(limit) => limit,
            Err(e) => {
                return Err(e);
            },
        };
        let join = match read_flag(&vars.join) {
            Ok(join) => join,
            Err(e) => {
                return Err(e);
            },
        };
        if peers.contains_key(&id) {
            return Err(
                String::from_str(
                    "RUSTKV_PEERS must list only OTHER members, but contains this node's id ",
                ).concat(decimal_string(id).as_str()),
            );
        }
        let listen = text_or(vars.listen, "127.0.0.1:8080");
        let raft_listen = text_or(vars.raft_listen, "127.0.0.1:9080");
        let advertise_raft_addr = text_or(vars.advertise_raft_addr, raft_listen.as_str());
        let own_url = String::from_str("http://").concat(listen.as_str());
        let advertise_client_url = text_or(vars.advertise_client_url, own_url.as_str());
        let config = NodeConfig {
            id,
            listen,
            raft_listen,
            data_dir: text_or(vars.data_dir, "./rustkv-data"),
            peers,
            peer_client_urls,
            snapshot_threshold,
            snapshot_trailing,
            max_append_bytes,
            snapshot_chunk_bytes,
            join,
            rpc_timeout_ms,
            assumed_bandwidth,
            advertise_raft_addr,
            advertise_client_url,
        };
        assert(config@ =~= seen.config());
        Ok(config)
    }
}

/// The text of a variable, or `default`.
fn text_or(var: Option<String>, default: &str) -> (text: String)
    ensures
        text@ == or_text(var, default@),
{
    match var {
        Some(raw) => raw,
        None => String::from_str(default),
    }
}

/// What is said of a variable that does not read.
fn complain(complaint: &str, raw: &str) -> (message: String)
    ensures
        message@ == complaint@ + ", got "@ + quoted(raw@),
{
    String::from_str(complaint).concat(", got ").concat(quote(raw).as_str())
}

fn read_number(var: &Option<String>, least: u64, default: u64, complaint: &str) -> (read: Result<
    u64,
    String,
>)
    ensures
        match read {
            Ok(n) => number_var(*var, least, default, complaint@) == Ok::<u64, Seq<char>>(n),
            Err(e) => number_var(*var, least, default, complaint@) == Err::<u64, Seq<char>>(e@),
        },
{
    match var {
        None => Ok(default),
        Some(raw) => match parse_text(raw.as_str()) {
            Some(n) => if n >= least {
                Ok(n)
            } else {
                Err(complain(complaint, raw.as_str()))
            },
            None => Err(complain(complaint, raw.as_str())),
        },
    }
}

fn read_optional(var: &Option<String>, least: u64, complaint: &str) -> (read: Result<
    Option<u64>,
    String,
>)
    ensures
        match read {
            Ok(n) => optional_var(*var, least, complaint@) == Ok::<Option<u64>, Seq<char>>(n),
            Err(e) => optional_var(*var, least, complaint@) == Err::<Option<u64>, Seq<char>>(e@),
        },
{
    match var {
        None => Ok(None),
        Some(raw) => match parse_text(raw.as_str()) {
            Some(n) => if n >= least {
                Ok(Some(n))
            } else {
                Err(complain(complaint, raw.as_str()))
            },
            None => Err(complain(complaint, raw.as_str())),
        },
    }
}

fn read_limit(var: &Option<String>, most: u64, default: u64, complaint: &str) -> (read: Result<
    Option<u64>,
    String,
>)
    ensures
        match read {
            Ok(n) => limit_var(*var, most as int, default, complaint@) == Ok::<
                Option<u64>,
                Seq<char>,
            >(n),
            Err(e) => limit_var(*var, most as int, default, complaint@) == Err::<
                Option<u64>,
                Seq<char>,
            >(e@),
        },
{
    match var {
        None => Ok(Some(default)),
        Some(raw) => match parse_text(raw.as_str()) {
            Some(n) => if n > most {
                Err(complain(complaint, raw.as_str()))
            } else if n == 0 {
                Ok(None)
            } else {
                Ok(Some(n))
            },
            None => Err(complain(complaint, raw.as_str())),
        },
    }
}

fn size_of_limit(limit: Option<u64>) -> (size: Option<usize>)
    ensures
        size == as_size(limit),
{
    match limit {
        Some(n) => Some(n as usize),
        None => None,
    }
}

fn read_flag(var: &Option<String>) -> (read: Result<bool, String>)
    ensures
        match read {
            Ok(flag) => flag_var(*var) == Ok::<bool, Seq<char>>(flag),
            Err(e) => flag_var(*var) == Err::<bool, Seq<char>>(e@),
        },
{
    match var {
        None => Ok(false),
        Some(raw) => {
            let raw = raw.as_str();
            if same_text(raw, "") || same_text(raw, "0") || same_text(raw, "false") {
                Ok(false)
            } else if same_text(raw, "1") || same_text(raw, "true") {
                Ok(true)
            } else {
                Err(
                    String::from_str("RUSTKV_JOIN must be 0/1/true/false, got ").concat(
                        quote(raw).as_str(),
                    ),
                )
            }
        },
    }
}

fn read_peers(var: &Option<String>, name: &str) -> (read: Result<HashMap<NodeId, String>, String>)
    ensures
        match read {
            Ok(table) => peers_var(*var, name@) == Ok::<Map<NodeId, Seq<char>>, Seq<char>>(
                texts(table@),
            ),
            Err(e) => peers_var(*var, name@) == Err::<Map<NodeId, Seq<char>>, Seq<char>>(e@),
        },
{
    let raw = match var {
        Some(raw) => raw.clone(),
        None => String::new(),
    };
    match parse_peer_map(raw.as_str()) {
        Ok(table) => Ok(table),
        Err(e) => Err(String::from_str(name).concat(": ").concat(e.as_str())),
    }
}

/// Reads one `id=value` entry.
fn parse_peer_entry(chars: &Vec<char>, from: usize, to: usize) -> (entry: Result<
    (NodeId, String),
    String,
>)
    requires
        from <= to <= chars.len(),
    ensures
        ({
            let text = chars@.subrange(from as int, to as int);
            match entry {
                Ok((id, value)) => peer_entry(text) == Ok::<(NodeId, Seq<char>), Seq<char>>(
                    (id, value@),
                ),
                Err(e) => peer_entry(text) == Err::<(NodeId, Seq<char>), Seq<char>>(e@),
            }
        }),
{
    let ghost text = chars@.subrange(from as int, to as int);
    match find_char(chars, from, to, '=') {
        None => Err(
            String::from_str("expected id=value, got ").concat(
                quote(text_of(chars, from, to).as_str()).as_str(),
            ),
        ),
        Some(i) => {
            let split_at: usize = from + i;
            let (id_start, id_end) = trim_bounds(chars, from, split_at);
            assert(chars@.subrange(from as int, split_at as int) =~= text.take(i as int));
            match parse_number(chars, id_start, id_end) {
                None => Err(
                    String::from_str("bad node id in ").concat(
                        quote(text_of(chars, from, to).as_str()).as_str(),
                    ),
                ),
                Some(id) => {
                    let (start, end) = trim_bounds(chars, split_at + 1, to);
                    assert(chars@.subrange(split_at + 1, to as int) =~= text.skip(i + 1));
                    Ok((id, text_of(chars, start, end)))
                },
            }
        },
    }
}

/// Parses `1=value,2=value` maps (whitespace around entries tolerated).
pub fn parse_peer_map(raw: &str) -> (parsed: Result<HashMap<NodeId, String>, String>)
    ensures
        match parsed {
            Ok(table) => peer_map(raw@) == Ok::<Map<NodeId, Seq<char>>, Seq<char>>(texts(table@)),
            Err(e) => peer_map(raw@) == Err::<Map<NodeId, Seq<char>>, Seq<char>>(e@),
        },
{
    let chars = chars_of(raw);
    let pieces = split_bounds(&chars, ',');
    let ghost all = split(raw@, ',');
    let mut table: HashMap<NodeId, String> = HashMap::new();
    let mut k: usize = 0;
    assert(texts(table@) =~= Map::empty());
    while k < pieces.len()
        invariant
            k <= pieces.len() == all.len(),
            chars@ == raw@,
            all == split(raw@, ','),
            forall|k: int|
                #![trigger pieces[k]]
                0 <= k < pieces.len() ==> {
                    &&& pieces[k].0 <= pieces[k].1 <= chars.len()
                    &&& chars@.subrange(pieces[k].0 as int, pieces[k].1 as int) == all[k]
                },
            peer_table(all.take(k as int)) == Ok::<Map<NodeId, Seq<char>>, Seq<char>>(
                texts(table@),
            ),
        decreases pieces.len() - k,
    {
        proof {
            assert(all.take(k + 1).drop_last() =~= all.take(k as int));
            assert(all.take(k + 1).last() == all[k as int]);
        }
        let (piece_start, piece_end) = pieces[k];
        let (start, end) = trim_bounds(&chars, piece_start, piece_end);
        if start < end {
            match parse_peer_entry(&chars, start, end) {
                Err(e) => {
                    proof {
                        lemma_peer_fault_stays(all, k + 1);
                    }
                    return Err(e);
                },
                Ok((id, value)) => {
                    if table.contains_key(&id) {
                        proof {
                            lemma_peer_fault_stays(all, k + 1);
                        }
                        return Err(
                            String::from_str("duplicate node id ").concat(
                                decimal_string(id).as_str(),
                            ),
                        );
                    }
                    let ghost before = texts(table@);
                    table.insert(id, value);
                    assert(texts(table@) =~= before.insert(id, value@));
                },
            }
        }
        k += 1;
    }
    assert(all.take(all.len() as int) =~= all);
    Ok(table)
}

/// A fault among the first pieces is the fault of the whole list.
proof fn lemma_peer_fault_stays(pieces: Seq<Seq<char>>, upto: int)
    requires
        0 <= upto <= pieces.len(),
        peer_table(pieces.take(upto)) is Err,
    ensures
        peer_table(pieces) == peer_table(pieces.take(upto)),
    decreases pieces.len(),
{
    if upto == pieces.len() {
        assert(pieces.take(upto) =~= pieces);
    } else {
        assert(pieces.drop_last().take(upto) =~= pieces.take(upto));
        lemma_peer_fault_stays(pieces.drop_last(), upto);
    }
}

/// Whether two answers say the same.
pub open spec fn same_answer(a: Option<String>, b: Option<String>) -> bool {
    match (a, b) {
        (Some(x), Some(y)) => x@ == y@,
        (None, None) => true,
        _ => false,
    }
}

/// Whether two lookups give a name the same answer.
pub open spec fn agree_on<F: Fn(&str) -> Option<String>, G: Fn(&str) -> Option<String>>(
    f: F,
    g: G,
    name: &str,
) -> bool {
    forall|a: Option<String>, b: Option<String>| #[trigger]
        answers(f, name, a) && #[trigger] answers(g, name, b) ==> same_answer(a, b)
}

/// Whether two lookups agree on the documented names.
pub open spec fn agree_on_documented<
    F: Fn(&str) -> Option<String>,
    G: Fn(&str) -> Option<String>,
>(f: F, g: G) -> bool {
    &&& agree_on(f, g, "RUSTKV_NODE_ID")
    &&& agree_on(f, g, "RUSTKV_LISTEN")
    &&& agree_on(f, g, "RUSTKV_RAFT_LISTEN")
    &&& agree_on(f, g, "RUSTKV_DATA_DIR")
    &&& agree_on(f, g, "RUSTKV_PEERS")
    &&& agree_on(f, g, "RUSTKV_PEER_CLIENT_URLS")
    &&& agree_on(f, g, "RUSTKV_SNAPSHOT_THRESHOLD")
    &&& agree_on(f, g, "RUSTKV_SNAPSHOT_TRAILING")
    &&& agree_on(f, g, "RUSTKV_MAX_APPEND_BYTES")
    &&& agree_on(f, g, "RUSTKV_SNAPSHOT_CHUNK_BYTES")
    &&& agree_on(f, g, "RUSTKV_RPC_TIMEOUT_MS")
    &&& agree_on(f, g, "RUSTKV_ASSUMED_BANDWIDTH")
    &&& agree_on(f, g, "RUSTKV_JOIN")
    &&& agree_on(f, g, "RUSTKV_ADVERTISE_RAFT_ADDR")
    &&& agree_on(f, g, "RUSTKV_ADVERTISE_CLIENT_URL")
}

/// Variables that say the same describe the same configuration, or have the
/// same fault.
proof fn lemma_by_answers(x: Vars, y: Vars)
    requires
        same_answer(x.node_id, y.node_id),
        same_answer(x.listen, y.listen),
        same_answer(x.raft_listen, y.raft_listen),
        same_answer(x.data_dir, y.data_dir),
        same_answer(x.peers, y.peers),
        same_answer(x.peer_client_urls, y.peer_client_urls),
        same_answer(x.snapshot_threshold, y.snapshot_threshold),
        same_answer(x.snapshot_trailing, y.snapshot_trailing),
        same_answer(x.max_append_bytes, y.max_append_bytes),
        same_answer(x.snapshot_chunk_bytes, y.snapshot_chunk_bytes),
        same_answer(x.rpc_timeout_ms, y.rpc_timeout_ms),
        same_answer(x.assumed_bandwidth, y.assumed_bandwidth),
        same_answer(x.join, y.join),
        same_answer(x.advertise_raft_addr, y.advertise_raft_addr),
        same_answer(x.advertise_client_url, y.advertise_client_url),
    ensures
        x.fault() == y.fault(),
        x.config() == y.config(),
{
    assert(x.id() == y.id());
    assert(x.peer_addrs() == y.peer_addrs());
    assert(x.client_urls() == y.client_urls());
    assert(x.threshold() == y.threshold());
    assert(x.trailing() == y.trailing());
    assert(x.append_limit() == y.append_limit());
    assert(x.chunk_limit() == y.chunk_limit());
    assert(x.timeout_ms() == y.timeout_ms());
    assert(x.bandwidth() == y.bandwidth());
    assert(flag_var(x.join) == flag_var(y.join));
}

/// The result is a function of the documented variables: lookups that agree on
/// them give equal configurations, or equal error texts.
pub proof fn only_the_documented_variables_count<
    F: Fn(&str) -> Option<String>,
    G: Fn(&str) -> Option<String>,
>(
    f: F,
    g: G,
    a: Result<NodeConfig, String>,
    b: Result<NodeConfig, String>,
)
    requires
        agree_on_documented(f, g),
        exists|seen: Vars| #[trigger] read_through(f, seen) && configures(seen, a),
        exists|seen: Vars| #[trigger] read_through(g, seen) && configures(seen, b),
    ensures
        match (a, b) {
            (Ok(x), Ok(y)) => x@ == y@,
            (Err(x), Err(y)) => x@ == y@,
            _ => false,
        },
{
    let x = choose|seen: Vars| #[trigger] read_through(f, seen) && configures(seen, a);
    let y = choose|seen: Vars| #[trigger] read_through(g, seen) && configures(seen, b);
    lemma_by_answers(x, y);
}

// ---- the configuration that a node is started with ----

/// The addresses of the members that `config` starts a node with: the peers by
/// their raft addresses and client URLs (blank where there is none), and the
/// node itself by its advertised ones, which are what the whole cluster uses.
pub open spec fn started_with(config: ConfigModel) -> Map<NodeId, AddrModel> {
    Map::new(
        |id: NodeId| id == config.id || config.peers.contains_key(id),
        |id: NodeId|
            if id == config.id {
                AddrModel {
                    raft: config.advertise_raft_addr,
                    client: config.advertise_client_url,
                }
            } else {
                AddrModel {
                    raft: config.peers[id],
                    client: if config.peer_client_urls.contains_key(id) {
                        config.peer_client_urls[id]
                    } else {
                        Seq::empty()
                    },
                }
            },
    )
}

/// The members that `config` starts a node with, and their addresses.
pub fn bootstrap_addrs(config: &NodeConfig) -> (members: Membership)
    ensures
        members.addrs() == started_with(config@),
        ascending(members.ids()),
{
    let mut members = Membership::new();
    let ghost peers = config.peers@;
    let ghost urls = config.peer_client_urls@;
    for entry in iter: config.peers.iter()
        invariant
            peers == config.peers@,
            urls == config.peer_client_urls@,
            forall|i: int|
                #![trigger iter.seq()[i]]
                0 <= i < iter.seq().len() ==> peers.contains_key(*iter.seq()[i].0)
                    && peers[*iter.seq()[i].0] == *iter.seq()[i].1,
            forall|k: NodeId| #[trigger]
                peers.contains_key(k) ==> iter.seq().contains((&k, &peers[k])),
            forall|k: NodeId| #[trigger]
                members.addrs().contains_key(k) <==> exists|i: int|
                    0 <= i < iter.index() && *(#[trigger] iter.seq()[i]).0 == k,
            forall|k: NodeId| #[trigger]
                members.addrs().contains_key(k) ==> members.addrs()[k] == (AddrModel {
                    raft: peers[k]@,
                    client: if urls.contains_key(k) {
                        urls[k]@
                    } else {
                        Seq::empty()
                    },
                }),
    {
        let id: u64 = *entry.0;
        let client = match config.peer_client_urls.get(&id) {
            Some(url) => url.clone(),
            None => String::new(),
        };
        let ghost before = members.addrs();
        members.insert(id, MemberAddr { raft: entry.1.clone(), client });
        proof {
            let at = iter.index();
            assert(*iter.seq()[at].0 == id);
            assert forall|k: NodeId| #[trigger] members.addrs().contains_key(k) <==> exists|i: int|
                0 <= i < at + 1 && *(#[trigger] iter.seq()[i]).0 == k by {
                if before.contains_key(k) {
                    let i = choose|i: int| 0 <= i < at && *(#[trigger] iter.seq()[i]).0 == k;
                    assert(*iter.seq()[i].0 == k);
                }
            }
        }
    }
    let own = MemberAddr {
        raft: config.advertise_raft_addr.clone(),
        client: config.advertise_client_url.clone(),
    };
    let ghost others = members.addrs();
    members.insert(config.id, own);
    proof {
        assert forall|k: NodeId| peers.contains_key(k) implies #[trigger] others.contains_key(k) by {
        }
        assert(members.addrs() =~= started_with(config@));
    }
    members
}

// ---- joining lists ----

/// Cutting two texts joined by the separator is cutting each.
proof fn split_joined(a: Seq<char>, sep: char, b: Seq<char>)
    ensures
        split(a.push(sep) + b, sep) == split(a, sep) + split(b, sep),
        split(b, sep).len() > 0,
    decreases b.len(),
{
    let joined = a.push(sep) + b;
    if b.len() == 0 {
        assert(joined =~= a.push(sep));
        assert(joined.drop_last() =~= a);
        assert(split(joined, sep) =~= split(a, sep) + split(b, sep));
    } else {
        let init = b.drop_last();
        split_joined(a, sep, init);
        assert(joined.drop_last() =~= a.push(sep) + init);
        assert(joined.last() == b.last());
        assert(split(joined, sep) =~= split(a, sep) + split(b, sep));
    }
}

/// The table of two lists of pieces.
proof fn table_joined(a: Seq<Seq<char>>, b: Seq<Seq<char>>)
    ensures
        match (peer_table(a), peer_table(b)) {
            (Ok(x), Ok(y)) => if x.dom().disjoint(y.dom()) {
                peer_table(a + b) == Ok::<Map<NodeId, Seq<char>>, Seq<char>>(
                    x.union_prefer_right(y),
                )
            } else {
                peer_table(a + b) is Err
            },
            _ => peer_table(a + b) is Err,
        },
    decreases b.len(),
{
    if b.len() == 0 {
        assert(a + b =~= a);
        if let Ok(x) = peer_table(a) {
            assert(x.union_prefer_right(Map::empty()) =~= x);
        }
    } else {
        let init = b.drop_last();
        table_joined(a, init);
        assert((a + b).drop_last() =~= a + init);
        assert((a + b).last() == b.last());
        if let (Ok(x), Ok(y)) = (peer_table(a), peer_table(init)) {
            if trim(b.last()).len() > 0 {
                if let Ok((id, value)) = peer_entry(trim(b.last())) {
                    let more = y.insert(id, value);
                    assert(more.dom().contains(id));
                    if x.dom().disjoint(y.dom()) {
                        if x.contains_key(id) {
                            assert(!x.dom().disjoint(more.dom()));
                        } else {
                            assert(x.dom().disjoint(more.dom()));
                            assert(x.union_prefer_right(more) =~= x.union_prefer_right(y).insert(
                                id,
                                value,
                            ));
                        }
                    } else {
                        let k = choose|k: NodeId| x.dom().contains(k) && y.dom().contains(k);
                        assert(more.dom().contains(k));
                        assert(!x.dom().disjoint(more.dom()));
                    }
                }
            }
        }
    }
}

/// Peer lists join: two lists joined by a comma are read exactly when each is
/// and no id stands in both, and then as the union of the two tables. (So a
/// repeated id is an error even where the values agree.)
pub proof fn peer_lists_join(a: Seq<char>, b: Seq<char>)
    ensures
        match (peer_map(a), peer_map(b)) {
            (Ok(x), Ok(y)) => if x.dom().disjoint(y.dom()) {
                peer_map(a.push(',') + b) == Ok::<Map<NodeId, Seq<char>>, Seq<char>>(
                    x.union_prefer_right(y),
                )
            } else {
                peer_map(a.push(',') + b) is Err
            },
            _ => peer_map(a.push(',') + b) is Err,
        },
{
    split_joined(a, ',', b);
    table_joined(split(a, ','), split(b, ','));
}

/// The order of the entries does not matter: swapping two parts of a peer list
/// gives the same table, or an error as before.
pub proof fn peer_order_does_not_matter(a: Seq<char>, b: Seq<char>)
    ensures
        match (peer_map(a.push(',') + b), peer_map(b.push(',') + a)) {
            (Ok(x), Ok(y)) => x == y,
            (Err(_), Err(_)) => true,
            _ => false,
        },
{
    peer_lists_join(a, b);
    peer_lists_join(b, a);
    if let (Ok(x), Ok(y)) = (peer_map(a), peer_map(b)) {
        if x.dom().disjoint(y.dom()) {
            assert(y.dom().disjoint(x.dom()));
            assert(x.union_prefer_right(y) =~= y.union_prefer_right(x));
        } else {
            let k = choose|k: NodeId| x.dom().contains(k) && y.dom().contains(k);
            assert(!y.dom().disjoint(x.dom()));
        }
    }
}

// ---- what operators can rely on ----

/// Whether a variable is set to the decimal of `n`.
pub open spec fn spells(var: Option<String>, n: u64) -> bool {
    var matches Some(raw) && raw@ == decimal(n as nat)
}

/// A numeric variable is taken as it is written, if it is not too small; a
/// limit of zero is none at all; unset it is the default; what is no number is
/// a fault.
pub proof fn numbers_are_taken_as_written(
    var: Option<String>,
    n: u64,
    least: u64,
    most: int,
    default: u64,
    complaint: Seq<char>,
)
    ensures
        var is None ==> number_var(var, least, default, complaint) == Ok::<u64, Seq<char>>(default),
        var is None ==> optional_var(var, least, complaint) == Ok::<Option<u64>, Seq<char>>(None),
        var is None ==> limit_var(var, most, default, complaint) == Ok::<Option<u64>, Seq<char>>(
            Some(default),
        ),
        spells(var, n) && n >= least ==> number_var(var, least, default, complaint) == Ok::<
            u64,
            Seq<char>,
        >(n),
        spells(var, n) && n >= least ==> optional_var(var, least, complaint) == Ok::<
            Option<u64>,
            Seq<char>,
        >(Some(n)),
        spells(var, n) && n < least ==> number_var(var, least, default, complaint) is Err
            && optional_var(var, least, complaint) is Err,
        spells(var, n) && 0 < n <= most ==> limit_var(var, most, default, complaint) == Ok::<
            Option<u64>,
            Seq<char>,
        >(Some(n)),
        spells(var, n) && n == 0 && most >= 0 ==> limit_var(var, most, default, complaint) == Ok::<
            Option<u64>,
            Seq<char>,
        >(None),
        spells(var, n) && n > most ==> limit_var(var, most, default, complaint) is Err,
        var is Some && number(var->0@) is None ==> {
            &&& number_var(var, least, default, complaint) is Err
            &&& optional_var(var, least, complaint) is Err
            &&& limit_var(var, most, default, complaint) is Err
        },
{
    crate::text::decimals_are_read_back(n as nat);
}

/// A peer list of one entry is that entry: the id before the first equals sign,
/// and what follows it as it is.
pub proof fn an_entry_is_read_as_written(id: NodeId, value: Seq<char>)
    requires
        !value.contains(','),
        trim(value) == value,
    ensures
        peer_map(decimal(id as nat).push('=') + value) == Ok::<Map<NodeId, Seq<char>>, Seq<char>>(
            Map::empty().insert(id, value),
        ),
        peer_map(Seq::empty()) == Ok::<Map<NodeId, Seq<char>>, Seq<char>>(Map::empty()),
{
    let entry = decimal(id as nat).push('=') + value;
    lemma_entry(id, value);
    crate::text::a_text_without_the_separator_is_one_piece(entry, ',');
    lemma_one_entry(entry);
    assert(!Seq::<char>::empty().contains(','));
    crate::text::a_text_without_the_separator_is_one_piece(Seq::empty(), ',');
    crate::text::a_text_without_white_space_around_stays(Seq::empty());
    lemma_one_entry(Seq::empty());
}

proof fn lemma_one_entry(piece: Seq<char>)
    ensures
        trim(piece).len() == 0 ==> peer_table(seq![piece]) == Ok::<
            Map<NodeId, Seq<char>>,
            Seq<char>,
        >(Map::empty()),
        trim(piece).len() > 0 && peer_entry(trim(piece)) is Ok ==> peer_table(seq![piece]) == Ok::<
            Map<NodeId, Seq<char>>,
            Seq<char>,
        >(Map::empty().insert(peer_entry(trim(piece))->Ok_0.0, peer_entry(trim(piece))->Ok_0.1)),
{
    let one = seq![piece];
    assert(one.drop_last() =~= Seq::<Seq<char>>::empty());
    assert(one.last() == piece);
    assert(peer_table(one.drop_last()) == Ok::<Map<NodeId, Seq<char>>, Seq<char>>(Map::empty()));
}

proof fn lemma_entry(id: NodeId, value: Seq<char>)
    requires
        !value.contains(','),
        trim(value) == value,
    ensures
        ({
            let entry = decimal(id as nat).push('=') + value;
            &&& entry.len() > 0
            &&& !entry.contains(',')
            &&& trim(entry) == entry
            &&& peer_entry(entry) == Ok::<(NodeId, Seq<char>), Seq<char>>((id, value))
        }),
{
    crate::text::decimals_are_read_back(id as nat);
    let digits = decimal(id as nat);
    lemma_no_comma(digits, value);
    lemma_entry_ends(digits, value);
    lemma_entry_sign(digits, value);
    lemma_digits_stay(digits);
}

spec fn all_digits(s: Seq<char>) -> bool {
    s.len() > 0 && forall|i: int| #![trigger s[i]] 0 <= i < s.len() ==> '0' <= s[i] <= '9'
}

proof fn lemma_no_comma(digits: Seq<char>, value: Seq<char>)
    requires
        all_digits(digits),
        !value.contains(','),
    ensures
        !(digits.push('=') + value).contains(','),
{
    let entry = digits.push('=') + value;
    assert forall|i: int| 0 <= i < entry.len() implies entry[i] != ',' by {
        if i < digits.len() {
            assert(entry[i] == digits[i]);
        } else if i > digits.len() {
            assert(entry[i] == value[i - digits.len() - 1]);
        }
    }
}

proof fn lemma_entry_ends(digits: Seq<char>, value: Seq<char>)
    requires
        all_digits(digits),
        trim(value) == value,
    ensures
        trim(digits.push('=') + value) == digits.push('=') + value,
{
    let entry = digits.push('=') + value;
    lemma_trimmed_ends(value);
    assert(entry[0] == digits[0]);
    if value.len() > 0 {
        assert(entry[entry.len() - 1] == value[value.len() - 1]);
    } else {
        assert(entry[entry.len() - 1] == '=');
    }
    crate::text::a_text_without_white_space_around_stays(entry);
}

proof fn lemma_trimmed_ends(value: Seq<char>)
    requires
        trim(value) == value,
    ensures
        value.len() > 0 ==> !crate::text::is_space(value[value.len() - 1]),
{
    let at = crate::text::trimming_takes_the_white_space_around(value);
}

proof fn lemma_digits_stay(digits: Seq<char>)
    requires
        all_digits(digits),
    ensures
        trim(digits) == digits,
{
    assert('0' <= digits[0] <= '9');
    assert('0' <= digits[digits.len() - 1] <= '9');
    crate::text::a_text_without_white_space_around_stays(digits);
}

proof fn lemma_entry_sign(digits: Seq<char>, value: Seq<char>)
    requires
        all_digits(digits),
    ensures
        ({
            let entry = digits.push('=') + value;
            &&& first_index(entry, '=') == Some(digits.len() as int)
            &&& entry.take(digits.len() as int) == digits
            &&& entry.skip(digits.len() as int + 1) == value
        }),
{
    let entry = digits.push('=') + value;
    crate::text::the_first_occurrence_is_first(entry, '=');
    assert(entry[digits.len() as int] == '=');
    assert(entry.contains('='));
    let found = first_index(entry, '=')->0;
    if found < digits.len() {
        assert(entry[found] == digits[found]);
    }
    assert(entry.take(digits.len() as int) =~= digits);
    assert(entry.skip(digits.len() as int + 1) =~= value);
}

/// Whether a limit variable is set to what `limit` stands for.
pub open spec fn spells_limit(var: Option<String>, limit: Option<u64>) -> bool {
    match limit {
        Some(n) => n > 0 && spells(var, n),
        None => spells(var, 0),
    }
}

/// Whether a text variable is set to `text`.
pub open spec fn spells_text(var: Option<String>, text: Seq<char>) -> bool {
    var matches Some(raw) && raw@ == text
}

/// A configuration that is written out variable by variable is read back as it
/// was: each variable sets its own field and no other.
pub proof fn a_written_configuration_is_read_back(
    vars: Vars,
    config: ConfigModel,
    append: Option<u64>,
    chunk: Option<u64>,
    bandwidth: Option<u64>,
)
    requires
        spells(vars.node_id, config.id),
        spells_text(vars.listen, config.listen),
        spells_text(vars.raft_listen, config.raft_listen),
        spells_text(vars.data_dir, config.data_dir),
        vars.peers is Some && peer_map(vars.peers->0@) == Ok::<Map<NodeId, Seq<char>>, Seq<char>>(
            config.peers,
        ),
        vars.peer_client_urls is Some && peer_map(vars.peer_client_urls->0@) == Ok::<
            Map<NodeId, Seq<char>>,
            Seq<char>,
        >(config.peer_client_urls),
        match config.snapshot_threshold {
            Some(n) => n >= 1 && spells(vars.snapshot_threshold, n),
            None => vars.snapshot_threshold is None,
        },
        spells(vars.snapshot_trailing, config.snapshot_trailing),
        spells_limit(vars.max_append_bytes, append),
        config.max_append_bytes == (match append {
            Some(n) => Some(n as usize),
            None => None,
        }),
        append matches Some(n) ==> n <= usize::MAX,
        spells_limit(vars.snapshot_chunk_bytes, chunk),
        config.snapshot_chunk_bytes == (match chunk {
            Some(n) => Some(n as usize),
            None => None,
        }),
        chunk matches Some(n) ==> n <= usize::MAX,
        vars.join matches Some(raw) && raw@ == (if config.join {
            "1"@
        } else {
            "0"@
        }),
        config.rpc_timeout_ms >= 1,
        spells(vars.rpc_timeout_ms, config.rpc_timeout_ms),
        spells_limit(vars.assumed_bandwidth, bandwidth),
        config.assumed_bandwidth == bandwidth,
        spells_text(vars.advertise_raft_addr, config.advertise_raft_addr),
        spells_text(vars.advertise_client_url, config.advertise_client_url),
        !config.peers.contains_key(config.id),
    ensures
        vars.fault() is None,
        vars.config() == config,
{
    numbers_are_taken_as_written(vars.node_id, config.id, 0, 0, 1, "RUSTKV_NODE_ID must be a number"@);
    if let Some(n) = config.snapshot_threshold {
        crate::text::decimals_are_read_back(n as nat);
    }
    crate::text::decimals_are_read_back(config.snapshot_trailing as nat);
    crate::text::decimals_are_read_back(config.rpc_timeout_ms as nat);
    crate::text::decimals_are_read_back(0);
    if let Some(n) = append {
        crate::text::decimals_are_read_back(n as nat);
    }
    if let Some(n) = chunk {
        crate::text::decimals_are_read_back(n as nat);
    }
    if let Some(n) = bandwidth {
        crate::text::decimals_are_read_back(n as nat);
    }
    reveal_strlit("1");
    reveal_strlit("0");
    reveal_strlit("");
    reveal_strlit("true");
    reveal_strlit("false");
    assert("1"@[0] == '1');
    assert("0"@[0] == '0');
    assert("1"@.len() == 1 && "0"@.len() == 1 && ""@.len() == 0 && "false"@.len() == 5);
    assert(vars.id() == Ok::<u64, Seq<char>>(config.id));
    assert(vars.threshold() == Ok::<Option<u64>, Seq<char>>(config.snapshot_threshold));
    assert(vars.trailing() == Ok::<u64, Seq<char>>(config.snapshot_trailing));
    assert(vars.append_limit() == Ok::<Option<u64>, Seq<char>>(append));
    assert(vars.chunk_limit() == Ok::<Option<u64>, Seq<char>>(chunk));
    assert(vars.timeout_ms() == Ok::<u64, Seq<char>>(config.rpc_timeout_ms));
    assert(vars.bandwidth() == Ok::<Option<u64>, Seq<char>>(bandwidth));
    assert(flag_var(vars.join) == Ok::<bool, Seq<char>>(config.join));
}

/// With nothing set at all, the node is a cluster of its own on the default
/// addresses; the advertised addresses are the ones it listens on.
pub proof fn nothing_set_gives_the_defaults(vars: Vars)
    requires
        vars.peers is None,
        vars.node_id is None,
        vars.snapshot_threshold is None,
        vars.snapshot_trailing is None,
        vars.peer_client_urls is None,
        vars.max_append_bytes is None,
        vars.snapshot_chunk_bytes is None,
        vars.rpc_timeout_ms is None,
        vars.assumed_bandwidth is None,
        vars.join is None,
        vars.advertise_raft_addr is None,
        vars.advertise_client_url is None,
    ensures
        vars.fault() is None,
        vars.config().id == 1,
        vars.config().peers == Map::<NodeId, Seq<char>>::empty(),
        vars.config().peer_client_urls == Map::<NodeId, Seq<char>>::empty(),
        vars.config().snapshot_threshold is None,
        vars.config().snapshot_trailing == 0,
        vars.config().max_append_bytes == Some(1048576usize),
        vars.config().snapshot_chunk_bytes == Some(4194304usize),
        vars.config().assumed_bandwidth == Some(8388608u64),
        vars.config().rpc_timeout_ms == 150,
        !vars.config().join,
        vars.config().advertise_raft_addr == vars.config().raft_listen,
        vars.config().advertise_client_url == "http://"@ + vars.config().listen,
{
    crate::text::a_text_without_white_space_around_stays(Seq::empty());
    an_entry_is_read_as_written(0, Seq::empty());
}

/// Whatever is wrong with one of the variables is a fault of the whole: no
/// configuration comes out of it.
pub proof fn every_fault_counts(vars: Vars)
    ensures
        vars.node_id matches Some(raw) && number(raw@) is None ==> vars.fault() is Some,
        vars.peers matches Some(raw) && peer_map(raw@) is Err ==> vars.fault() is Some,
        vars.peer_client_urls matches Some(raw) && peer_map(raw@) is Err ==> vars.fault() is Some,
        vars.snapshot_threshold matches Some(raw) && (number(raw@) is None || number(raw@) == Some(
            0u64,
        )) ==> vars.fault() is Some,
        vars.snapshot_trailing matches Some(raw) && number(raw@) is None ==> vars.fault() is Some,
        vars.max_append_bytes matches Some(raw) && number(raw@) is None ==> vars.fault() is Some,
        vars.snapshot_chunk_bytes matches Some(raw) && number(raw@) is None ==> vars.fault() is Some,
        vars.rpc_timeout_ms matches Some(raw) && (number(raw@) is None || number(raw@) == Some(
            0u64,
        )) ==> vars.fault() is Some,
        vars.assumed_bandwidth matches Some(raw) && number(raw@) is None ==> vars.fault() is Some,
        vars.join matches Some(raw) && raw@ != ""@ && raw@ != "0"@ && raw@ != "1"@ && raw@
            != "true"@ && raw@ != "false"@ ==> vars.fault() is Some,
        vars.id() is Ok && vars.peers is Some && peer_map(vars.peers->0@) is Ok && peer_map(
            vars.peers->0@,
        )->Ok_0.contains_key(vars.id()->Ok_0) ==> vars.fault() is Some,
{
}

/// A node starts with exactly its peers and itself: the peers where the list
/// has them, itself where it is advertised.
pub proof fn the_members_at_the_start_are_the_peers_and_the_node(config: ConfigModel, id: NodeId)
    ensures
        started_with(config).contains_key(id) <==> id == config.id || config.peers.contains_key(id),
        started_with(config)[config.id].raft == config.advertise_raft_addr,
        started_with(config)[config.id].client == config.advertise_client_url,
        id != config.id && config.peers.contains_key(id) ==> started_with(config)[id].raft
            == config.peers[id],
        id != config.id && config.peers.contains_key(id) && config.peer_client_urls.contains_key(id)
            ==> started_with(config)[id].client == config.peer_client_urls[id],
        id != config.id && config.peers.contains_key(id) && !config.peer_client_urls.contains_key(
            id,
        ) ==> started_with(config)[id].client.len() == 0,
{
}

/// White space around the id and around the value of an entry does not matter.
pub proof fn an_entry_may_be_spaced(
    a: Seq<char>,
    id: NodeId,
    b: Seq<char>,
    c: Seq<char>,
    value: Seq<char>,
    d: Seq<char>,
)
    requires
        crate::text::blank(a),
        crate::text::blank(b),
        crate::text::blank(c),
        crate::text::blank(d),
        value.len() > 0 ==> !crate::text::is_space(value[0]) && !crate::text::is_space(
            value[value.len() - 1],
        ),
    ensures
        peer_entry((a + decimal(id as nat) + b).push('=') + (c + value + d)) == Ok::<
            (NodeId, Seq<char>),
            Seq<char>,
        >((id, value)),
{
    crate::text::decimals_are_read_back(id as nat);
    let digits = decimal(id as nat);
    let left = a + digits + b;
    let right = c + value + d;
    let entry = left.push('=') + right;
    assert('0' <= digits[0] <= '9');
    assert('0' <= digits[digits.len() - 1] <= '9');
    crate::text::padding_is_trimmed(a, digits, b);
    crate::text::padding_is_trimmed(c, value, d);
    crate::text::the_first_occurrence_is_first(entry, '=');
    assert(entry[left.len() as int] == '=');
    assert(entry.contains('='));
    let found = first_index(entry, '=')->0;
    if found < left.len() {
        assert(entry[found] == left[found]);
        if found < a.len() {
            assert(left[found] == a[found]);
        } else if found < a.len() + digits.len() {
            assert(left[found] == digits[found - a.len()]);
        } else {
            assert(left[found] == b[found - a.len() - digits.len()]);
        }
    }
    assert(entry.take(left.len() as int) =~= left);
    assert(entry.skip(left.len() as int + 1) =~= right);
}

/// A node joins exactly when it is told to: it is if the variable is `1` or
/// `true`, it is not if the variable is unset, empty, `0` or `false`, and every
/// other text is a fault.
pub proof fn a_node_joins_exactly_when_told(vars: Vars)
    ensures
        vars.fault() is None ==> (vars.config().join <==> (vars.join is Some && (vars.join->0@
            == "1"@ || vars.join->0@ == "true"@))),
        flag_var(vars.join) is Ok <==> (vars.join is None || vars.join->0@.len() == 0
            || vars.join->0@ == "0"@ || vars.join->0@ == "1"@ || vars.join->0@ == "true"@
            || vars.join->0@ == "false"@),
{
    reveal_strlit("");
    reveal_strlit("0");
    reveal_strlit("1");
    reveal_strlit("true");
    reveal_strlit("false");
    assert("0"@[0] == '0' && "1"@[0] == '1' && "true"@[0] == 't' && "false"@[0] == 'f');
    if let Some(raw) = vars.join {
        if raw@.len() == 0 {
            assert(raw@ =~= ""@);
        }
    }
}

} // verus!
