//! The client API: what requests ask for and what outcomes are answered.

use std::collections::HashMap;

use rustkv::api::{
    delete_member, delete_request, member_path, put_member, put_parsed, put_request,
    read_response, redirect_to_leader, role_name, session_from_headers, value_response,
    write_response, Body, Header, Reply,
};
use rustkv::kv::{
    read_outcome, read_refused, write_outcome, write_refused, ReadError, ReadWait, WriteError,
    WriteWait,
};
use rustkv::raft::node::{ConfigFault, ProposeError, RoleKind};
use rustkv::raft::types::{Command, MemberAddr, Membership, Session};
use serde_json::Value;

fn text(status: u16, body: &str) -> Reply {
    Reply {
        status,
        body: Body::Text(body.to_string()),
        location: None,
    }
}

fn bare(status: u16) -> Reply {
    Reply {
        status,
        body: Body::Empty,
        location: None,
    }
}

fn header(raw: &str) -> Header {
    Header::Text(raw.to_string())
}

const TOGETHER: &str = "X-Client-Id and X-Client-Seq must be provided together\n";
const INTEGERS: &str = "X-Client-Id and X-Client-Seq must be unsigned integers\n";

#[test]
fn tokens_come_in_pairs_of_numbers() {
    assert_eq!(session_from_headers(&Header::Absent, &Header::Absent), Ok(None));
    assert_eq!(
        session_from_headers(&header("7"), &header("1")),
        Ok(Some(Session { client: 7, seq: 1 }))
    );
    for (client, seq, error) in [
        (header("7"), Header::Absent, TOGETHER),
        (Header::Absent, header("1"), TOGETHER),
        (header("x"), header("1"), INTEGERS),
        (header("7"), header("-1"), INTEGERS),
        (header("x"), Header::Absent, INTEGERS),
        (Header::Absent, header(""), INTEGERS),
        (Header::Unreadable, header("1"), INTEGERS),
    ] {
        assert_eq!(session_from_headers(&client, &seq), Err(error));
    }
}

#[test]
fn puts_need_valid_json_and_a_whole_token() {
    let put = |body: &[u8]| put_request("k".to_string(), &Header::Absent, &Header::Absent, body);
    match put(b" {\"a\": [1, null]} ") {
        Ok(Command::Put {
            key,
            value,
            session,
        }) => {
            assert_eq!(key, "k");
            assert_eq!(serde_json::to_string(&value).unwrap(), r#"{"a":[1,null]}"#);
            assert_eq!(session, None);
        }
        other => panic!("{other:?}"),
    }
    for bad in [&b"{not json"[..], b"", b"1 2", b"\xff"] {
        assert_eq!(put(bad), Err(text(400, "body must be valid JSON\n")));
    }
    // A bad token is reported before a bad body.
    assert_eq!(
        put_request("k".to_string(), &header("7"), &Header::Absent, b"{"),
        Err(text(400, TOGETHER))
    );
    assert_eq!(
        put_parsed(
            "k".to_string(),
            Some(Session { client: 7, seq: 1 }),
            Some(Value::from(5))
        ),
        Ok(Command::Put {
            key: "k".to_string(),
            value: Value::from(5),
            session: Some(Session { client: 7, seq: 1 }),
        })
    );
    assert_eq!(
        put_parsed("k".to_string(), None, None),
        Err(text(400, "body must be valid JSON\n"))
    );
}

#[test]
fn deletes_need_a_whole_token() {
    assert_eq!(
        delete_request("k".to_string(), &header("7"), &header("2")),
        Ok(Command::Delete {
            key: "k".to_string(),
            session: Some(Session { client: 7, seq: 2 }),
        })
    );
    assert_eq!(
        delete_request("k".to_string(), &header("7"), &header("two")),
        Err(text(400, INTEGERS))
    );
}

fn urls() -> HashMap<u64, String> {
    HashMap::from([(2, "http://n2:8080".to_string())])
}

#[test]
fn redirects_need_a_known_leader_with_a_known_url() {
    assert_eq!(
        redirect_to_leader(&urls(), "k", Some(2)),
        Some(Reply {
            status: 307,
            body: Body::Empty,
            location: Some("http://n2:8080/k".to_string()),
        })
    );
    assert_eq!(redirect_to_leader(&urls(), "k", Some(3)), None);
    assert_eq!(redirect_to_leader(&urls(), "k", None), None);
}

#[test]
fn writes_are_answered_by_their_outcome() {
    let reply = |outcome| write_response(&urls(), "k", 201, outcome);
    assert_eq!(reply(Ok(())), bare(201));
    assert_eq!(
        reply(Err(WriteError::NotLeader { leader_hint: Some(2) })).status,
        307
    );
    assert_eq!(
        reply(Err(WriteError::NotLeader { leader_hint: None })),
        text(503, "no leader known; retry shortly\n")
    );
    assert_eq!(
        reply(Err(WriteError::Timeout)),
        text(
            504,
            "write not confirmed: this node cannot reach a majority; \
             the write may or may not commit later\n"
        )
    );
    assert_eq!(
        reply(Err(WriteError::Superseded)),
        text(
            503,
            "leadership changed before the write committed; safe to retry\n"
        )
    );
    assert_eq!(
        reply(Err(WriteError::InvalidConfig { reason: "because" })),
        text(409, "because\n")
    );
    assert_eq!(
        reply(Err(WriteError::Shutdown)),
        text(503, "node shutting down\n")
    );
}

#[test]
fn reads_are_answered_by_their_outcome() {
    let reply = |outcome| read_response(&urls(), "k", outcome);
    let found = Reply {
        status: 200,
        body: Body::Json(Value::from(1)),
        location: None,
    };
    assert_eq!(reply(Ok(Some(Value::from(1)))), found);
    assert_eq!(value_response(Some(Value::from(1))), found);
    assert_eq!(reply(Ok(None)), bare(404));
    assert_eq!(value_response(None), bare(404));
    assert_eq!(
        reply(Err(ReadError::NotLeader { leader_hint: Some(2) })).location,
        Some("http://n2:8080/k".to_string())
    );
    assert_eq!(
        reply(Err(ReadError::NotLeader { leader_hint: Some(3) })),
        text(503, "no leader known; retry shortly\n")
    );
    assert_eq!(
        reply(Err(ReadError::Timeout)),
        text(
            504,
            "read not confirmed: this node cannot reach a majority; \
             retry (or use ?stale=true for a possibly-stale local read)\n"
        )
    );
    assert_eq!(
        reply(Err(ReadError::Retry)),
        text(503, "leadership changed during the read; safe to retry\n")
    );
    assert_eq!(
        reply(Err(ReadError::Shutdown)),
        text(503, "node shutting down\n")
    );
}

#[test]
fn waits_map_onto_outcomes() {
    assert_eq!(write_outcome(WriteWait::Resolved { committed: true }), Ok(()));
    assert_eq!(
        write_outcome(WriteWait::Resolved { committed: false }),
        Err(WriteError::Superseded)
    );
    assert_eq!(write_outcome(WriteWait::Elapsed), Err(WriteError::Timeout));
    assert_eq!(write_outcome(WriteWait::Gone), Err(WriteError::Shutdown));
    // The node runs on, but an installed snapshot hides the write's fate.
    assert_eq!(write_outcome(WriteWait::Untold), Err(WriteError::Timeout));
    assert_eq!(
        WriteError::Timeout.message(),
        "write not confirmed in time; outcome unknown"
    );
    assert_eq!(
        read_outcome(ReadWait::Granted, Some(Value::from(1))),
        Ok(Some(Value::from(1)))
    );
    assert_eq!(
        read_outcome(ReadWait::Dropped, Some(Value::from(1))),
        Err(ReadError::Retry)
    );
    assert_eq!(read_outcome(ReadWait::Elapsed, None), Err(ReadError::Timeout));

    let hint = ProposeError::NotLeader { leader_hint: Some(4) };
    assert_eq!(
        write_refused(hint),
        WriteError::NotLeader { leader_hint: Some(4) }
    );
    assert_eq!(
        read_refused(hint),
        ReadError::NotLeader { leader_hint: Some(4) }
    );
    let invalid = ProposeError::InvalidConfigChange {
        reason: ConfigFault::ChangeInFlight,
    };
    assert_eq!(
        write_refused(invalid),
        WriteError::InvalidConfig {
            reason: "another configuration change is in flight"
        }
    );
    assert_eq!(read_refused(invalid), ReadError::Retry);
    assert_eq!(write_refused(ProposeError::Shutdown), WriteError::Shutdown);
    assert_eq!(read_refused(ProposeError::Shutdown), ReadError::Shutdown);
}

#[test]
fn errors_read_well() {
    assert_eq!(
        ProposeError::NotLeader { leader_hint: Some(4) }.message(),
        "not the leader; try node 4"
    );
    assert_eq!(
        WriteError::NotLeader { leader_hint: None }.message(),
        "not the leader, and no leader is known"
    );
    assert_eq!(
        ReadError::NotLeader { leader_hint: Some(10) }.message(),
        "not the leader; try node 10"
    );
    assert_eq!(ProposeError::Shutdown.message(), "raft node has shut down");
    assert_eq!(
        WriteError::Timeout.message(),
        "write not confirmed in time; outcome unknown"
    );
    assert_eq!(
        WriteError::Superseded.message(),
        "write superseded by a leadership change"
    );
    assert_eq!(WriteError::Shutdown.message(), "node has shut down");
    assert_eq!(
        WriteError::InvalidConfig { reason: "x" }.message(),
        "invalid configuration change: x"
    );
    assert_eq!(ReadError::Timeout.message(), "read not confirmed in time; retry");
    assert_eq!(
        ReadError::Retry.message(),
        "leadership changed during the read; retry"
    );
    assert_eq!(ReadError::Shutdown.message(), "node has shut down");
    for (fault, reason) in [
        (
            ConfigFault::NoopUncommitted,
            "the leader's no-op has not committed yet",
        ),
        (
            ConfigFault::ChangeInFlight,
            "another configuration change is in flight",
        ),
        (ConfigFault::Empty, "a configuration needs at least one member"),
        (ConfigFault::NotSingleServer, "not a single-server change"),
        (
            ConfigFault::MajorityUnreachable,
            "a majority of the new configuration is not reachable",
        ),
    ] {
        assert_eq!(
            ProposeError::InvalidConfigChange { reason: fault }.message(),
            format!("invalid configuration change: {reason}")
        );
    }
}

fn addr(id: u64) -> MemberAddr {
    MemberAddr {
        raft: format!("n{id}:9080"),
        client: format!("http://n{id}:8080"),
    }
}

#[test]
fn members_are_added_and_removed_one_by_one() {
    let mut members = Membership::new();
    for id in [3, 1, 2] {
        members.insert(id, addr(id));
    }
    let ids = |m: &Membership| m.to_ids();
    assert_eq!(ids(&members), vec![1, 2, 3]);

    match put_member(&members, 4, Some(addr(4))) {
        Ok(Command::ConfigChange { members: proposed }) => {
            assert_eq!(ids(&proposed), vec![1, 2, 3, 4]);
            assert_eq!(proposed.get(4), Some(&addr(4)));
            assert!(members.is_single_change(&proposed));
        }
        other => panic!("{other:?}"),
    }
    assert_eq!(
        put_member(&members, 2, Some(addr(9))),
        Err(text(
            409,
            "already a member (address changes are not supported)\n"
        ))
    );
    assert_eq!(
        put_member(&members, 4, None),
        Err(text(
            400,
            "body must be {\"raft\": \"host:port\", \"client\": \"http://host:port\"}\n"
        ))
    );
    match delete_member(&members, 2) {
        Ok(Command::ConfigChange { members: proposed }) => {
            assert_eq!(ids(&proposed), vec![1, 3]);
            assert!(members.is_single_change(&proposed));
            assert!(!members.same_as(&proposed));
        }
        other => panic!("{other:?}"),
    }
    assert_eq!(delete_member(&members, 4), Err(bare(404)));
    assert_eq!(member_path(4), "cluster/members/4");
}

#[test]
fn roles_have_names() {
    assert_eq!(role_name(RoleKind::Follower), "Follower");
    assert_eq!(role_name(RoleKind::PreCandidate), "PreCandidate");
    assert_eq!(role_name(RoleKind::Candidate), "Candidate");
    assert_eq!(role_name(RoleKind::Leader), "Leader");
}
