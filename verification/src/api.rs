//! Client-facing HTTP API: what each request asks of the store, and what each
//! outcome is answered.
//!
//! Contract:
//! - `GET /{key}`    -> 200 with the stored JSON, 404 if absent. Linearizable
//!   by default; `GET /{key}?stale=true` reads the local state machine.
//! - `PUT /{key}`    -> 201 once the write is committed by a majority; 400 if
//!   the body is not valid JSON.
//! - `DELETE /{key}` -> 204 once the delete is committed (idempotent).
//! - `GET /cluster/status` -> 200 with this node's raft status.
//!
//! Dedup tokens: writes may carry `X-Client-Id` and `X-Client-Seq` headers
//! (both u64). Both-or-neither; anything else is `400`.
//!
//! Cluster admin:
//! - `GET /cluster/members`         -> 200 with the in-effect membership.
//! - `PUT /cluster/members/{id}`    -> 201 once the change adding the member is
//!   committed; body `{"raft": "host:port", "client": "http://…"}`.
//! - `DELETE /cluster/members/{id}` -> 204 once the removal is committed; 404
//!   if the id is not a member. Invalid changes -> `409` with the reason.
//!
//! Non-leaders answer writes and linearizable reads with `307 Temporary
//! Redirect` to the leader's client URL when it is known, else `503`. An
//! operation that cannot confirm majority contact within the node's timeout
//! returns `504`.

use std::collections::HashMap;
use std::sync::Arc;

use serde_json::Value;
use vstd::prelude::*;
use vstd::string::*;

use crate::kv::{ReadError, WriteError};
use crate::raft::membership::{ascending, AddrModel, MemberAddr, Membership};
use crate::raft::node::RoleKind;
use crate::raft::types::{Command, NodeId, Session};
use crate::text::{decimal, number, parse_text, push_decimal};

verus! {

broadcast use vstd::std_specs::hash::group_hash_axioms;

pub const OK: u16 = 200;

pub const CREATED: u16 = 201;

pub const NO_CONTENT: u16 = 204;

pub const TEMPORARY_REDIRECT: u16 = 307;

pub const BAD_REQUEST: u16 = 400;

pub const NOT_FOUND: u16 = 404;

pub const CONFLICT: u16 = 409;

pub const SERVICE_UNAVAILABLE: u16 = 503;

pub const GATEWAY_TIMEOUT: u16 = 504;

/// What a response carries.
#[derive(Debug, PartialEq)]
pub enum Body {
    Empty,
    Text(String),
    Json(Value),
}

/// A response.
#[derive(Debug, PartialEq)]
pub struct Reply {
    pub status: u16,
    pub body: Body,
    /// Where a redirect leads.
    pub location: Option<String>,
}

/// What a response carries, by its text or value.
#[verifier::ext_equal]
pub enum BodyModel {
    Empty,
    Text(Seq<char>),
    Json(Value),
}

/// A response, by its texts.
#[verifier::ext_equal]
pub struct ReplyModel {
    pub status: u16,
    pub body: BodyModel,
    pub location: Option<Seq<char>>,
}

impl View for Reply {
    type V = ReplyModel;

    open spec fn view(&self) -> ReplyModel {
        ReplyModel {
            status: self.status,
            body: match self.body {
                Body::Empty => BodyModel::Empty,
                Body::Text(text) => BodyModel::Text(text@),
                Body::Json(value) => BodyModel::Json(value),
            },
            location: match self.location {
                Some(text) => Some(text@),
                None => None,
            },
        }
    }
}

/// A response without a body.
pub open spec fn bare(status: u16) -> ReplyModel {
    ReplyModel { status, body: BodyModel::Empty, location: None }
}

/// A response with a line of text.
pub open spec fn line(status: u16, text: Seq<char>) -> ReplyModel {
    ReplyModel { status, body: BodyModel::Text(text), location: None }
}

fn bare_reply(status: u16) -> (reply: Reply)
    ensures
        reply@ == bare(status),
{
    Reply { status, body: Body::Empty, location: None }
}

fn text_reply(status: u16, text: &str) -> (reply: Reply)
    ensures
        reply@ == line(status, text@),
{
    Reply { status, body: Body::Text(String::from_str(text)), location: None }
}

// ---- request parsing ----

/// One request header.
#[derive(Debug, PartialEq)]
pub enum Header {
    Absent,
    /// Present, but not readable as text.
    Unreadable,
    Text(String),
}

/// What a header says as a number: nothing, a number, or something else.
pub open spec fn header_number(header: Header) -> Option<Option<u64>> {
    match header {
        Header::Absent => None,
        Header::Unreadable => Some(None),
        Header::Text(text) => Some(number(text@)),
    }
}

fn read_header(header: &Header) -> (said: Option<Option<u64>>)
    ensures
        said == header_number(*header),
{
    match header {
        Header::Absent => None,
        Header::Unreadable => Some(None),
        Header::Text(text) => Some(parse_text(text.as_str())),
    }
}

/// The dedup token that two headers make: both or neither, each a number.
pub open spec fn session_of(client: Header, seq: Header) -> Result<Option<Session>, Seq<char>> {
    match (header_number(client), header_number(seq)) {
        (None, None) => Ok(None),
        (Some(Some(client)), Some(Some(seq))) => Ok(Some(Session { client, seq })),
        (Some(None), _) => Err("X-Client-Id and X-Client-Seq must be unsigned integers\n"@),
        (_, Some(None)) => Err("X-Client-Id and X-Client-Seq must be unsigned integers\n"@),
        _ => Err("X-Client-Id and X-Client-Seq must be provided together\n"@),
    }
}

/// Parses the optional dedup token headers. The error is the 400 body text.
pub fn session_from_headers(client: &Header, seq: &Header) -> (session: Result<
    Option<Session>,
    &'static str,
>)
    ensures
        match session {
            Ok(s) => session_of(*client, *seq) == Ok::<Option<Session>, Seq<char>>(s),
            Err(text) => session_of(*client, *seq) == Err::<Option<Session>, Seq<char>>(text@),
        },
{
    match (read_header(client), read_header(seq)) {
        (None, None) => Ok(None),
        (Some(Some(client)), Some(Some(seq))) => Ok(Some(Session { client, seq })),
        (Some(None), _) => Err("X-Client-Id and X-Client-Seq must be unsigned integers\n"),
        (_, Some(None)) => Err("X-Client-Id and X-Client-Seq must be unsigned integers\n"),
        _ => Err("X-Client-Id and X-Client-Seq must be provided together\n"),
    }
}

/// The JSON value that bytes spell, if they spell one.
pub uninterp spec fn json_value(bytes: Seq<u8>) -> Option<Value>;

/// `serde_json::from_slice` into a `Value`: the value that the bytes spell, or
/// nothing if they are not exactly one JSON text.
#[verifier::external_body]
fn parse_json(bytes: &[u8]) -> (value: Option<Value>)
    ensures
        value == json_value(bytes@),
{
    serde_json::from_slice::<Value>(bytes).ok()
}

/// What a `PUT /{key}` asks for, given its token and the value of its body.
pub open spec fn put_command(
    key: String,
    session: Result<Option<Session>, Seq<char>>,
    value: Option<Value>,
) -> Result<Command, ReplyModel> {
    match session {
        Err(text) => Err(line(BAD_REQUEST, text)),
        Ok(session) => match value {
            None => Err(line(BAD_REQUEST, "body must be valid JSON\n"@)),
            Some(value) => Ok(Command::Put { key, value, session }),
        },
    }
}

/// What a `PUT /{key}` asks for: the body only has to be valid JSON, whatever
/// its content type; a bad token is reported before a bad body.
pub fn put_request(key: String, client: &Header, seq: &Header, body: &[u8]) -> (command: Result<
    Command,
    Reply,
>)
    ensures
        match command {
            Ok(c) => put_command(key, session_of(*client, *seq), json_value(body@)) == Ok::<
                Command,
                ReplyModel,
            >(c),
            Err(reply) => put_command(key, session_of(*client, *seq), json_value(body@)) == Err::<
                Command,
                ReplyModel,
            >(reply@),
        },
{
    let session = session_from_headers(client, seq);
    match session {
        Err(text) => Err(text_reply(BAD_REQUEST, text)),
        Ok(session) => put_parsed(key, session, parse_json(body)),
    }
}

/// What a `PUT /{key}` with a good token asks for, given the value of its
/// body.
pub fn put_parsed(key: String, session: Option<Session>, value: Option<Value>) -> (command: Result<
    Command,
    Reply,
>)
    ensures
        match command {
            Ok(c) => put_command(key, Ok(session), value) == Ok::<Command, ReplyModel>(c),
            Err(reply) => put_command(key, Ok(session), value) == Err::<Command, ReplyModel>(
                reply@,
            ),
        },
{
    match value {
        None => Err(text_reply(BAD_REQUEST, "body must be valid JSON\n")),
        Some(value) => Ok(Command::Put { key, value, session }),
    }
}

/// What a `DELETE /{key}` asks for.
pub fn delete_request(key: String, client: &Header, seq: &Header) -> (command: Result<
    Command,
    Reply,
>)
    ensures
        match command {
            Ok(c) => session_of(*client, *seq) is Ok && c == (Command::Delete {
                key,
                session: session_of(*client, *seq)->Ok_0,
            }),
            Err(reply) => session_of(*client, *seq) is Err && reply@ == line(
                BAD_REQUEST,
                session_of(*client, *seq)->Err_0,
            ),
        },
{
    match session_from_headers(client, seq) {
        Err(text) => Err(text_reply(BAD_REQUEST, text)),
        Ok(session) => Ok(Command::Delete { key, session }),
    }
}

// ---- outcomes ----

/// Where a redirect to the leader leads, if we know who and where it is.
pub open spec fn leader_url(
    urls: Map<NodeId, String>,
    path: Seq<char>,
    leader_hint: Option<NodeId>,
) -> Option<Seq<char>> {
    match leader_hint {
        Some(leader) if urls.contains_key(leader) => Some(urls[leader]@ + "/"@ + path),
        _ => None,
    }
}

/// 307 to the leader's client URL, if we know who and where it is. `path` is
/// the request path without the leading slash, embedded as it is.
pub fn redirect_to_leader(
    urls: &HashMap<NodeId, String>,
    path: &str,
    leader_hint: Option<NodeId>,
) -> (redirect: Option<Reply>)
    ensures
        match redirect {
            Some(reply) => {
                &&& leader_url(urls@, path@, leader_hint) is Some
                &&& reply@ == (ReplyModel {
                    status: TEMPORARY_REDIRECT,
                    body: BodyModel::Empty,
                    location: leader_url(urls@, path@, leader_hint),
                })
            },
            None => leader_url(urls@, path@, leader_hint) is None,
        },
{
    let leader: u64 = match leader_hint {
        Some(leader) => leader,
        None => {
            return None;
        },
    };
    match urls.get(&leader) {
        None => None,
        Some(base) => {
            let location = base.clone().concat("/").concat(path);
            let reply = Reply {
                status: TEMPORARY_REDIRECT,
                body: Body::Empty,
                location: Some(location),
            };
            Some(reply)
        },
    }
}

/// What an operation that the leader must serve is answered.
pub open spec fn not_leader(
    urls: Map<NodeId, String>,
    path: Seq<char>,
    leader_hint: Option<NodeId>,
) -> ReplyModel {
    match leader_url(urls, path, leader_hint) {
        Some(location) => ReplyModel {
            status: TEMPORARY_REDIRECT,
            body: BodyModel::Empty,
            location: Some(location),
        },
        None => line(SERVICE_UNAVAILABLE, "no leader known; retry shortly\n"@),
    }
}

fn not_leader_reply(urls: &HashMap<NodeId, String>, path: &str, leader_hint: Option<NodeId>) -> (reply:
    Reply)
    ensures
        reply@ == not_leader(urls@, path@, leader_hint),
{
    match redirect_to_leader(urls, path, leader_hint) {
        Some(redirect) => redirect,
        None => text_reply(SERVICE_UNAVAILABLE, "no leader known; retry shortly\n"),
    }
}

/// What a failed write is answered.
pub open spec fn write_error(
    urls: Map<NodeId, String>,
    path: Seq<char>,
    error: WriteError,
) -> ReplyModel {
    match error {
        WriteError::NotLeader { leader_hint } => not_leader(urls, path, leader_hint),
        WriteError::Timeout => line(
            GATEWAY_TIMEOUT,
            "write not confirmed: this node cannot reach a majority; the write may or may not commit later\n"@,
        ),
        WriteError::Superseded => line(
            SERVICE_UNAVAILABLE,
            "leadership changed before the write committed; safe to retry\n"@,
        ),
        WriteError::InvalidConfig { reason } => line(CONFLICT, reason@ + "\n"@),
        WriteError::Shutdown => line(SERVICE_UNAVAILABLE, "node shutting down\n"@),
    }
}

/// What a failed write is answered.
pub fn write_error_response(
    urls: &HashMap<NodeId, String>,
    path: &str,
    error: WriteError,
) -> (reply: Reply)
    ensures
        reply@ == write_error(urls@, path@, error),
{
    match error {
        WriteError::NotLeader { leader_hint } => not_leader_reply(urls, path, leader_hint),
        WriteError::Timeout => text_reply(
            GATEWAY_TIMEOUT,
            "write not confirmed: this node cannot reach a majority; the write may or may not commit later\n",
        ),
        WriteError::Superseded => text_reply(
            SERVICE_UNAVAILABLE,
            "leadership changed before the write committed; safe to retry\n",
        ),
        WriteError::InvalidConfig { reason } => {
            let text = String::from_str(reason).concat("\n");
            Reply { status: CONFLICT, body: Body::Text(text), location: None }
        },
        WriteError::Shutdown => text_reply(SERVICE_UNAVAILABLE, "node shutting down\n"),
    }
}

/// What a write is answered: `success` once it is committed.
pub fn write_response(
    urls: &HashMap<NodeId, String>,
    path: &str,
    success: u16,
    outcome: Result<(), WriteError>,
) -> (reply: Reply)
    ensures
        reply@ == match outcome {
            Ok(()) => bare(success),
            Err(error) => write_error(urls@, path@, error),
        },
{
    match outcome {
        Ok(()) => bare_reply(success),
        Err(error) => write_error_response(urls, path, error),
    }
}

/// What a failed read is answered.
pub open spec fn read_error(
    urls: Map<NodeId, String>,
    key: Seq<char>,
    error: ReadError,
) -> ReplyModel {
    match error {
        ReadError::NotLeader { leader_hint } => not_leader(urls, key, leader_hint),
        ReadError::Timeout => line(
            GATEWAY_TIMEOUT,
            "read not confirmed: this node cannot reach a majority; retry (or use ?stale=true for a possibly-stale local read)\n"@,
        ),
        ReadError::Retry => line(
            SERVICE_UNAVAILABLE,
            "leadership changed during the read; safe to retry\n"@,
        ),
        ReadError::Shutdown => line(SERVICE_UNAVAILABLE, "node shutting down\n"@),
    }
}

/// What a failed read is answered.
pub fn read_error_response(
    urls: &HashMap<NodeId, String>,
    key: &str,
    error: ReadError,
) -> (reply: Reply)
    ensures
        reply@ == read_error(urls@, key@, error),
{
    match error {
        ReadError::NotLeader { leader_hint } => not_leader_reply(urls, key, leader_hint),
        ReadError::Timeout => text_reply(
            GATEWAY_TIMEOUT,
            "read not confirmed: this node cannot reach a majority; retry (or use ?stale=true for a possibly-stale local read)\n",
        ),
        ReadError::Retry => text_reply(
            SERVICE_UNAVAILABLE,
            "leadership changed during the read; safe to retry\n",
        ),
        ReadError::Shutdown => text_reply(SERVICE_UNAVAILABLE, "node shutting down\n"),
    }
}

/// What a key's value is answered: the value, or 404.
pub open spec fn found(value: Option<Value>) -> ReplyModel {
    match value {
        Some(value) => ReplyModel { status: OK, body: BodyModel::Json(value), location: None },
        None => bare(NOT_FOUND),
    }
}

/// What a local (possibly stale) read is answered.
pub fn value_response(value: Option<Value>) -> (reply: Reply)
    ensures
        reply@ == found(value),
{
    match value {
        Some(value) => Reply { status: OK, body: Body::Json(value), location: None },
        None => bare_reply(NOT_FOUND),
    }
}

/// What a linearizable read is answered.
pub fn read_response(
    urls: &HashMap<NodeId, String>,
    key: &str,
    outcome: Result<Option<Value>, ReadError>,
) -> (reply: Reply)
    ensures
        reply@ == match outcome {
            Ok(value) => found(value),
            Err(error) => read_error(urls@, key@, error),
        },
{
    match outcome {
        Ok(value) => value_response(value),
        Err(error) => read_error_response(urls, key, error),
    }
}

// ---- cluster status and admin ----

/// A role, by name.
pub open spec fn role_text(role: RoleKind) -> Seq<char> {
    match role {
        RoleKind::Follower => "Follower"@,
        RoleKind::PreCandidate => "PreCandidate"@,
        RoleKind::Candidate => "Candidate"@,
        RoleKind::Leader => "Leader"@,
    }
}

/// A role, by name.
pub fn role_name(role: RoleKind) -> (name: &'static str)
    ensures
        name@ == role_text(role),
{
    match role {
        RoleKind::Follower => "Follower",
        RoleKind::PreCandidate => "PreCandidate",
        RoleKind::Candidate => "Candidate",
        RoleKind::Leader => "Leader",
    }
}

/// The path of the admin request for member `id`.
pub fn member_path(id: NodeId) -> (path: String)
    ensures
        path@ == "cluster/members/"@ + decimal(id as nat),
{
    let mut path = String::from_str("cluster/members/");
    push_decimal(&mut path, id as u128);
    path
}

/// What adding member `id` asks for: the complete new configuration. `addr` is
/// what the body says, if it reads as a member's addresses.
pub fn put_member(members: &Membership, id: NodeId, addr: Option<MemberAddr>) -> (proposed: Result<
    Command,
    Reply,
>)
    ensures
        match (addr, proposed) {
            (None, Err(reply)) => reply@ == line(
                BAD_REQUEST,
                "body must be {\"raft\": \"host:port\", \"client\": \"http://host:port\"}\n"@,
            ),
            (Some(a), Err(reply)) => {
                &&& members.addrs().contains_key(id)
                &&& reply@ == line(
                    CONFLICT,
                    "already a member (address changes are not supported)\n"@,
                )
            },
            (Some(a), Ok(command)) => {
                &&& !members.addrs().contains_key(id)
                &&& command is ConfigChange
                &&& command->members.addrs() == members.addrs().insert(id, a@)
                &&& ascending(command->members.ids())
            },
            (None, Ok(_)) => false,
        },
{
    match addr {
        None => Err(
            text_reply(
                BAD_REQUEST,
                "body must be {\"raft\": \"host:port\", \"client\": \"http://host:port\"}\n",
            ),
        ),
        Some(addr) => {
            if members.contains_key(id) {
                return Err(
                    text_reply(
                        CONFLICT,
                        "already a member (address changes are not supported)\n",
                    ),
                );
            }
            let mut proposed = members.clone();
            proposed.insert(id, addr);
            Ok(Command::ConfigChange { members: Arc::new(proposed) })
        },
    }
}

/// What removing member `id` asks for (the current leader included); 404 if
/// `id` is not in this node's view.
pub fn delete_member(members: &Membership, id: NodeId) -> (proposed: Result<Command, Reply>)
    ensures
        match proposed {
            Ok(command) => {
                &&& members.addrs().contains_key(id)
                &&& command is ConfigChange
                &&& command->members.addrs() == members.addrs().remove(id)
                &&& ascending(command->members.ids())
            },
            Err(reply) => !members.addrs().contains_key(id) && reply@ == bare(NOT_FOUND),
        },
{
    let mut proposed = members.clone();
    if !proposed.remove(id) {
        return Err(bare_reply(NOT_FOUND));
    }
    Ok(Command::ConfigChange { members: Arc::new(proposed) })
}

/// Adding a member that is not one, and removing one that is, are
/// single-server changes.
pub proof fn admin_changes_are_single_server(
    members: Map<NodeId, AddrModel>,
    id: NodeId,
    addr: AddrModel,
)
    ensures
        !members.contains_key(id) ==> crate::raft::membership::single_change(
            members,
            members.insert(id, addr),
        ),
        members.contains_key(id) ==> crate::raft::membership::single_change(
            members,
            members.remove(id),
        ),
{
    if !members.contains_key(id) {
        assert(members.insert(id, addr).remove(id) =~= members);
    }
}

// ---- what clients can rely on ----

/// A node that does not lead sends clients to the leader: where it knows the
/// leader's URL, writes and reads alike are answered 307 with that URL, a slash
/// and the path, whatever other nodes the table lists; otherwise 503, and
/// nowhere to go.
pub proof fn clients_are_sent_to_the_leader(
    urls: Map<NodeId, String>,
    path: Seq<char>,
    leader: NodeId,
)
    ensures
        urls.contains_key(leader) ==> ({
            let there = ReplyModel {
                status: 307,
                body: BodyModel::Empty,
                location: Some(urls[leader]@.push('/') + path),
            };
            &&& leader_url(urls, path, Some(leader)) == there.location
            &&& write_error(urls, path, WriteError::NotLeader { leader_hint: Some(leader) })
                == there
            &&& read_error(urls, path, ReadError::NotLeader { leader_hint: Some(leader) }) == there
        }),
        forall|hint: Option<NodeId>|
            (hint matches Some(id) ==> !urls.contains_key(id)) ==> {
                let write = #[trigger] write_error(
                    urls,
                    path,
                    WriteError::NotLeader { leader_hint: hint },
                );
                let read = read_error(urls, path, ReadError::NotLeader { leader_hint: hint });
                &&& leader_url(urls, path, hint) is None
                &&& write.status == 503 && write.location is None
                &&& read.status == 503 && read.location is None
            },
{
    reveal_strlit("/");
    if urls.contains_key(leader) {
        assert(urls[leader]@ + "/"@ + path =~= urls[leader]@.push('/') + path);
    }
}

/// Where a redirect leads depends on the leader's own entry alone.
pub proof fn other_nodes_do_not_matter_to_a_redirect(
    a: Map<NodeId, String>,
    b: Map<NodeId, String>,
    path: Seq<char>,
    leader: NodeId,
)
    requires
        a.contains_key(leader) == b.contains_key(leader),
        a.contains_key(leader) ==> a[leader]@ == b[leader]@,
    ensures
        leader_url(a, path, Some(leader)) == leader_url(b, path, Some(leader)),
        write_error(a, path, WriteError::NotLeader { leader_hint: Some(leader) }) == write_error(
            b,
            path,
            WriteError::NotLeader { leader_hint: Some(leader) },
        ),
        read_error(a, path, ReadError::NotLeader { leader_hint: Some(leader) }) == read_error(
            b,
            path,
            ReadError::NotLeader { leader_hint: Some(leader) },
        ),
{
}

/// A failed operation is never answered as if it had succeeded: an unknown
/// outcome is 504, a refused configuration 409 with the reason, and everything
/// else that asks for a retry 503; only a redirect names a place.
pub proof fn failures_are_told_apart(
    urls: Map<NodeId, String>,
    path: Seq<char>,
    write: WriteError,
    read: ReadError,
)
    ensures
        !(write is NotLeader) ==> write_error(urls, path, write).location is None,
        !(read is NotLeader) ==> read_error(urls, path, read).location is None,
        match write {
            WriteError::NotLeader { .. } => true,
            WriteError::Timeout => write_error(urls, path, write).status == 504,
            WriteError::Superseded => write_error(urls, path, write).status == 503,
            WriteError::InvalidConfig { reason } => write_error(urls, path, write) == (ReplyModel {
                status: 409,
                body: BodyModel::Text(reason@.push('\n')),
                location: None,
            }),
            WriteError::Shutdown => write_error(urls, path, write).status == 503,
        },
        match read {
            ReadError::NotLeader { .. } => true,
            ReadError::Timeout => read_error(urls, path, read).status == 504,
            ReadError::Retry => read_error(urls, path, read).status == 503,
            ReadError::Shutdown => read_error(urls, path, read).status == 503,
        },
        write_error(urls, path, write).body is Text || write is NotLeader,
        read_error(urls, path, read).body is Text || read is NotLeader,
        write is Timeout && read is Timeout ==> write_error(urls, path, write).body != read_error(
            urls,
            path,
            read,
        ).body,
{
    reveal_strlit("\n");
    if let WriteError::InvalidConfig { reason } = write {
        assert(reason@ + "\n"@ =~= reason@.push('\n'));
    }
    if write is Timeout && read is Timeout {
        lemma_timeouts_differ();
    }
}

proof fn lemma_timeouts_differ()
    ensures
        "write not confirmed: this node cannot reach a majority; the write may or may not commit later\n"@
            != "read not confirmed: this node cannot reach a majority; retry (or use ?stale=true for a possibly-stale local read)\n"@,
{
    reveal_strlit(
        "write not confirmed: this node cannot reach a majority; the write may or may not commit later\n",
    );
    reveal_strlit(
        "read not confirmed: this node cannot reach a majority; retry (or use ?stale=true for a possibly-stale local read)\n",
    );
    assert("write not confirmed: this node cannot reach a majority; the write may or may not commit later\n"@[0]
        == 'w');
    assert("read not confirmed: this node cannot reach a majority; retry (or use ?stale=true for a possibly-stale local read)\n"@[0]
        == 'r');
}

/// A key that is there is answered 200 with exactly its value, one that is not
/// 404 with nothing; a bare answer is its status and nothing else.
pub proof fn a_value_is_answered_as_it_is(value: Value, status: u16, text: Seq<char>)
    ensures
        found(Some(value)).status == 200,
        found(Some(value)).body == BodyModel::Json(value),
        found(Some(value)).location is None,
        found(None).status == 404,
        found(None).body is Empty,
        found(None).location is None,
        bare(status).status == status,
        bare(status).body is Empty,
        bare(status).location is None,
        line(status, text).status == status,
        line(status, text).body == BodyModel::Text(text),
        line(status, text).location is None,
{
}

/// The two token headers make a token exactly if both are numbers: any two
/// numbers do, none at all makes no token, and everything else is refused.
pub proof fn tokens_are_read_as_they_are_written(
    client: Header,
    seq: Header,
    client_id: u64,
    number_of: u64,
)
    ensures
        client is Absent && seq is Absent ==> session_of(client, seq) == Ok::<
            Option<Session>,
            Seq<char>,
        >(None),
        client is Text && client->Text_0@ == decimal(client_id as nat) && seq is Text
            && seq->Text_0@ == decimal(number_of as nat) ==> session_of(client, seq) == Ok::<
            Option<Session>,
            Seq<char>,
        >(Some(Session { client: client_id, seq: number_of })),
        client is Absent != seq is Absent ==> session_of(client, seq) is Err,
        client is Unreadable || seq is Unreadable ==> session_of(client, seq) is Err,
        client is Text && client->Text_0@.len() == 0 ==> session_of(client, seq) is Err,
        seq is Text && seq->Text_0@.len() == 0 ==> session_of(client, seq) is Err,
        session_of(client, seq) matches Ok(Some(session)) ==> {
            &&& client is Text && number(client->Text_0@) == Some(session.client)
            &&& seq is Text && number(seq->Text_0@) == Some(session.seq)
        },
{
    crate::text::decimals_are_read_back(client_id as nat);
    crate::text::decimals_are_read_back(number_of as nat);
    crate::text::only_digits_are_numbers(Seq::empty(), '0');
    if client is Text && client->Text_0@.len() == 0 {
        assert(client->Text_0@ =~= Seq::empty());
    }
    if seq is Text && seq->Text_0@.len() == 0 {
        assert(seq->Text_0@ =~= Seq::empty());
    }
}

/// A PUT with a good token and a JSON body asks for exactly that key, value and
/// token to be written; with a bad one of either it asks for nothing and is
/// answered 400.
pub proof fn a_put_asks_for_what_it_says(
    key: String,
    session: Result<Option<Session>, Seq<char>>,
    value: Option<Value>,
)
    ensures
        match (session, value) {
            (Ok(token), Some(v)) => put_command(key, session, value) == Ok::<Command, ReplyModel>(
                Command::Put { key, value: v, session: token },
            ),
            (Err(text), _) => put_command(key, session, value) matches Err(reply) && reply.status
                == 400 && reply.body == BodyModel::Text(text),
            (Ok(_), None) => put_command(key, session, value) matches Err(reply) && reply.status
                == 400,
        },
{
}

/// Each role has a name of its own.
pub proof fn roles_have_names_of_their_own(a: RoleKind, b: RoleKind)
    requires
        role_text(a) == role_text(b),
    ensures
        a == b,
{
    reveal_strlit("Follower");
    reveal_strlit("PreCandidate");
    reveal_strlit("Candidate");
    reveal_strlit("Leader");
    assert("Follower"@[0] == 'F' && "PreCandidate"@[0] == 'P' && "Candidate"@[0] == 'C'
        && "Leader"@[0] == 'L');
}

} // verus!
