//! The simulated network: plans and the safety observer.

use std::sync::Arc;

use rustkv::raft::rpc::{
    AppendEntriesArgs, InstallSnapshotArgs, RequestVoteArgs, RpcRequest,
};
use rustkv::raft::transport::sim::{FaultConfig, SendPlan, SimNetwork};
use rustkv::raft::transport::TransportError;
use rustkv::raft::types::{Command, LogEntry, Membership, NodeId, Session, Snapshot, Term};
use serde_json::Value;

const MS: u64 = 1000;

type Request = RpcRequest<Value>;

fn vote_req(term: Term) -> Request {
    RpcRequest::RequestVote(RequestVoteArgs {
        term,
        candidate_id: 1,
        last_log_index: 0,
        last_log_term: 0,
    })
}

fn pre_vote_req(term: Term, candidate_id: NodeId) -> Request {
    RpcRequest::PreVote(RequestVoteArgs {
        term,
        candidate_id,
        last_log_index: 0,
        last_log_term: 0,
    })
}

fn ae_with(
    term: Term,
    leader_id: NodeId,
    prev_log_index: u64,
    prev_log_term: Term,
    entries: Vec<LogEntry>,
) -> Request {
    RpcRequest::AppendEntries(AppendEntriesArgs {
        term,
        leader_id,
        prev_log_index,
        prev_log_term,
        entries,
        leader_commit: 0,
    })
}

fn ae_req(term: Term, leader_id: NodeId) -> Request {
    ae_with(term, leader_id, 0, 0, Vec::new())
}

fn put_entry(term: Term, index: u64, value: u64) -> LogEntry {
    LogEntry {
        term,
        index,
        command: Command::Put {
            key: format!("k{index}"),
            value: Value::from(value),
            session: None,
        },
    }
}

fn fixed_delay_config(delay: u64) -> FaultConfig {
    FaultConfig {
        min_delay: delay,
        max_delay: delay,
        drop_threshold: 0,
        duplicate_threshold: 0,
        rpc_timeout: 100 * MS,
    }
}

fn network(seed: u64, config: FaultConfig) -> SimNetwork {
    let mut net = SimNetwork::new(seed, config);
    for id in 1..=3 {
        net.register(id);
    }
    net
}

const ALWAYS: u64 = 1 << 53;

#[test]
fn defaults() {
    assert_eq!(
        FaultConfig::default(),
        FaultConfig {
            min_delay: MS,
            max_delay: 10 * MS,
            drop_threshold: 0,
            duplicate_threshold: 0,
            rpc_timeout: 100 * MS,
        }
    );
}

#[test]
fn a_clean_link_delays_both_legs() {
    let mut net = network(42, fixed_delay_config(5 * MS));
    let plan = net.plan_send(1, 2, &vote_req(3));
    assert!(plan.known && plan.request_arrives() && plan.reply_arrives(false));
    assert!(!plan.sends_duplicate());
    assert_eq!((plan.req_delay, plan.resp_delay), (5 * MS, 5 * MS));
    assert_eq!(plan.rpc_timeout, 100 * MS);
}

#[test]
fn full_drop_rate_loses_both_legs() {
    let mut net = network(
        7,
        FaultConfig {
            drop_threshold: ALWAYS,
            ..fixed_delay_config(5 * MS)
        },
    );
    let plan = net.plan_send(1, 2, &vote_req(1));
    assert!(!plan.request_arrives() && !plan.reply_arrives(false));
    net.set_fault_config(fixed_delay_config(MS));
    assert!(net.plan_send(1, 2, &vote_req(2)).request_arrives());
}

#[test]
fn unregistered_peers_are_unknown() {
    let mut net = network(0, FaultConfig::default());
    assert!(!net.plan_send(1, 99, &vote_req(1)).known);
    net.register(99);
    assert!(net.plan_send(1, 99, &vote_req(1)).known);
}

#[test]
fn a_send_ends_in_a_reply_or_an_error() {
    let mut net = network(3, fixed_delay_config(MS));
    let lost = net.plan_send(1, 99, &vote_req(1));
    assert_eq!(lost.refusal(99), Some(TransportError::Unreachable(99)));
    assert_eq!(lost.conclude::<u8>(99, None), Err(TransportError::Unreachable(99)));

    let plan = net.plan_send(1, 2, &vote_req(1));
    assert_eq!(plan.refusal(2), None);
    assert_eq!(plan.loss(false), None);
    assert_eq!(plan.loss(true), Some(TransportError::Timeout));
    assert_eq!(plan.conclude(2, Some(7)), Ok(7));
    assert_eq!(plan.conclude::<u8>(2, None), Err(TransportError::Timeout));

    net.set_link_blocked(1, 2, true);
    let blocked = net.plan_send(1, 2, &vote_req(1));
    assert_eq!(blocked.refusal(2), None);
    assert_eq!(blocked.loss(false), Some(TransportError::Timeout));
}

#[test]
fn links_block_in_one_direction_or_both() {
    let mut net = network(3, fixed_delay_config(MS));
    net.set_link_blocked(1, 2, true);
    assert!(net.is_blocked(1, 2) && !net.is_blocked(2, 1));
    let plan = net.plan_send(1, 2, &vote_req(1));
    assert!(!plan.request_arrives());
    assert!(net.plan_send(2, 1, &vote_req(1)).request_arrives());
    assert!(!plan.reply_arrives(true));

    net.set_pair_blocked(1, 2, true);
    assert!(net.is_blocked(1, 2) && net.is_blocked(2, 1));
    net.set_pair_blocked(1, 2, false);
    assert!(!net.is_blocked(1, 2) && !net.is_blocked(2, 1));
    net.set_link_blocked(1, 2, false);
    assert!(net.plan_send(1, 2, &vote_req(2)).request_arrives());
}

#[test]
fn duplicates_survive_a_drop_but_not_a_block() {
    let mut net = network(
        11,
        FaultConfig {
            drop_threshold: ALWAYS,
            duplicate_threshold: ALWAYS,
            ..fixed_delay_config(2 * MS)
        },
    );
    let plan = net.plan_send(1, 2, &vote_req(7));
    assert!(!plan.request_arrives() && plan.sends_duplicate());
    net.set_link_blocked(1, 2, true);
    assert!(!net.plan_send(1, 2, &vote_req(7)).sends_duplicate());
}

fn plans(seed: u64) -> Vec<SendPlan> {
    let half = 1u64 << 52;
    let mut net = network(
        seed,
        FaultConfig {
            min_delay: MS,
            max_delay: 20 * MS,
            drop_threshold: half,
            duplicate_threshold: half,
            rpc_timeout: 50 * MS,
        },
    );
    (0..20).map(|i| net.plan_send(1, 2, &vote_req(i))).collect()
}

#[test]
fn plans_are_a_function_of_the_seed() {
    let a = plans(1234);
    assert_eq!(a, plans(1234));
    assert_ne!(a, plans(1235));
    assert!(a.iter().any(|p| p.request_arrives()));
    assert!(a.iter().any(|p| !p.request_arrives()));
    assert!(a.iter().any(|p| p.sends_duplicate()));
    assert!(a.iter().all(|p| (MS..=20 * MS).contains(&p.req_delay)));
}

#[test]
fn every_send_takes_six_draws() {
    // What faults are configured does not shift the draws of later sends.
    let mut quiet = network(5, fixed_delay_config(MS));
    let mut noisy = network(
        5,
        FaultConfig {
            drop_threshold: ALWAYS,
            duplicate_threshold: ALWAYS,
            ..fixed_delay_config(MS)
        },
    );
    let config = FaultConfig {
        min_delay: 0,
        max_delay: u64::MAX,
        ..fixed_delay_config(MS)
    };
    quiet.plan_send(1, 2, &vote_req(1));
    noisy.plan_send(1, 2, &vote_req(1));
    quiet.set_fault_config(config);
    noisy.set_fault_config(config);
    let plan = quiet.plan_send(1, 2, &vote_req(1));
    assert_eq!(plan, noisy.plan_send(1, 2, &vote_req(1)));
    let mut rng = rustkv::rng::SplitMix64::new(5);
    let draws: Vec<u64> = (0..12).map(|_| rng.next_u64()).collect();
    assert_eq!(
        (plan.req_delay, plan.resp_delay, plan.dup_delay),
        (draws[7], draws[9], draws[11])
    );
}

/// The Election Safety observer must record forged conflicting leadership
/// claims, and nothing else.
#[test]
fn election_safety_interceptor_records_conflicting_claims() {
    let mut net = network(0, fixed_delay_config(MS));
    // Repeated claims by the same node, and claims for other terms, are not
    // violations. Neither are RequestVotes (candidates, not leaders).
    net.plan_send(1, 3, &ae_req(5, 1));
    net.plan_send(1, 3, &ae_req(5, 1));
    net.plan_send(1, 3, &ae_req(6, 1));
    net.plan_send(2, 3, &vote_req(5));
    assert_eq!(net.safety_violations(), Vec::<String>::new());

    // Forged conflict: node 2 also claims to lead term 5.
    net.plan_send(2, 3, &ae_req(5, 2));
    assert_eq!(
        net.safety_violations(),
        vec![
            "election safety violated: nodes 1 and 2 both sent AppendEntries as leader of term 5"
                .to_string()
        ]
    );

    // A claim records at send time even if the message is then lost.
    net.set_link_blocked(2, 3, true);
    net.plan_send(2, 3, &ae_req(6, 2));
    assert_eq!(net.safety_violations().len(), 2);
}

#[test]
fn pre_votes_are_invisible_to_the_safety_observer() {
    let mut net = network(0, fixed_delay_config(MS));
    // Two nodes pre-voting for the same prospective term is normal.
    net.plan_send(1, 3, &pre_vote_req(5, 1));
    net.plan_send(2, 3, &pre_vote_req(5, 2));
    // Nor does a pre-vote conflict with a REAL leadership claim.
    net.plan_send(1, 3, &ae_req(5, 1));
    net.plan_send(2, 3, &pre_vote_req(5, 2));
    assert_eq!(net.safety_violations(), Vec::<String>::new());

    // The observer is still awake: a conflicting REAL claim does record.
    net.plan_send(2, 3, &ae_req(5, 2));
    assert_eq!(net.safety_violations().len(), 1);
}

#[test]
fn install_snapshots_are_invisible_to_the_safety_observer() {
    let mut net = network(0, fixed_delay_config(MS));
    let snap_req = |leader_id: NodeId| -> Request {
        RpcRequest::InstallSnapshot(InstallSnapshotArgs {
            term: 5,
            leader_id,
            snapshot: Snapshot {
                last_included_index: 3,
                last_included_term: 2,
                membership: None,
                state: Arc::new(Value::Null),
            },
        })
    };
    net.plan_send(1, 3, &snap_req(1));
    net.plan_send(2, 3, &snap_req(2));
    assert_eq!(net.safety_violations(), Vec::<String>::new());

    net.plan_send(1, 3, &ae_req(5, 1));
    net.plan_send(2, 3, &ae_req(5, 2));
    assert_eq!(net.safety_violations().len(), 1);
}

#[test]
fn log_matching_interceptor_records_conflicting_entries() {
    let mut net = network(0, fixed_delay_config(MS));
    // The same entry retransmitted (and duplicated) is not a violation;
    // neither is a different command at the same index under a NEW term.
    let e = put_entry(2, 1, 10);
    net.plan_send(1, 3, &ae_with(2, 1, 0, 0, vec![e.clone()]));
    net.plan_send(1, 3, &ae_with(2, 1, 0, 0, vec![e.clone()]));
    net.plan_send(2, 3, &ae_with(3, 2, 0, 0, vec![put_entry(3, 1, 99)]));
    assert_eq!(net.safety_violations(), Vec::<String>::new());

    // Forged: same (term 2, index 1) carrying a different command.
    net.plan_send(1, 3, &ae_with(2, 1, 0, 0, vec![put_entry(2, 1, 11)]));
    assert_eq!(
        net.safety_violations(),
        vec![
            "log matching violated: two different commands shipped for (term 2, index 1)"
                .to_string()
        ]
    );
}

#[test]
fn commands_are_compared_part_by_part() {
    let base = |command| {
        vec![LogEntry {
            term: 2,
            index: 1,
            command,
        }]
    };
    let put = |key: &str, value: Value, session| Command::Put {
        key: key.to_string(),
        value,
        session,
    };
    let token = Some(Session { client: 1, seq: 1 });
    let config = |ids: &[u64]| {
        let mut members = Membership::new();
        for &id in ids {
            members.insert(
                id,
                rustkv::raft::types::MemberAddr {
                    raft: format!("{id}"),
                    client: String::new(),
                },
            );
        }
        Command::ConfigChange {
            members: Arc::new(members),
        }
    };
    let commands = vec![
        put("a", Value::from(1), None),
        put("b", Value::from(1), None),
        put("a", Value::from(2), None),
        put("a", Value::from(1), token),
        Command::Delete {
            key: "a".to_string(),
            session: None,
        },
        Command::Delete {
            key: "a".to_string(),
            session: token,
        },
        Command::Noop,
        config(&[1]),
        config(&[1, 2]),
    ];
    for (i, first) in commands.iter().enumerate() {
        for (j, second) in commands.iter().enumerate() {
            let mut net = network(0, fixed_delay_config(MS));
            net.plan_send(1, 3, &ae_with(2, 1, 0, 0, base(first.clone())));
            net.plan_send(1, 3, &ae_with(2, 1, 0, 0, base(second.clone())));
            assert_eq!(net.safety_violations().len(), usize::from(i != j), "{i} {j}");
        }
    }
}

#[test]
fn malformed_append_entries_are_recorded() {
    let mut net = network(0, fixed_delay_config(MS));
    // A well-formed batch: contiguous from prev, terms non-decreasing.
    net.plan_send(
        1,
        3,
        &ae_with(3, 1, 1, 1, vec![put_entry(2, 2, 1), put_entry(3, 3, 2)]),
    );
    assert_eq!(net.safety_violations(), Vec::<String>::new());

    // Gap after prev_log_index.
    net.plan_send(1, 3, &ae_with(3, 1, 1, 1, vec![put_entry(3, 3, 2)]));
    // Entry from a term newer than the sender claims to lead.
    net.plan_send(1, 3, &ae_with(3, 1, 3, 3, vec![put_entry(4, 4, 4)]));
    // Terms decreasing along the batch (below prev_log_term).
    net.plan_send(1, 3, &ae_with(3, 1, 3, 3, vec![put_entry(2, 4, 5)]));
    assert_eq!(
        net.safety_violations(),
        vec![
            "malformed AppendEntries from node 1: entry index 3 where 2 was expected \
             (prev_log_index 1)"
                .to_string(),
            "malformed AppendEntries from node 1: entry (term 4, index 4) outside [3, 3]"
                .to_string(),
            "malformed AppendEntries from node 1: entry (term 2, index 4) outside [3, 3]"
                .to_string(),
        ]
    );
}
