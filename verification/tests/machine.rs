use distribd::config::{Configuration, PeerConfig, RaftConfig, RegistryConfig};
use distribd::log::{Log, LogEntry};
use distribd::machine::{Envelope, Machine, Message, Peer, PeerState};
use distribd::machine::find_first_inconsistency;
use distribd::types::RegistryAction;

fn single_node_configuration() -> Configuration {
    Configuration {
        identifier: "node1".to_string(),
        ..Configuration::default()
    }
}

fn single_node_machine() -> Machine {
    Machine::new(&single_node_configuration())
}

fn cluster_node_configuration() -> Configuration {
    Configuration {
        identifier: "node1".to_string(),
        peers: vec![
            PeerConfig {
                name: "node1".to_string(),
                raft: RaftConfig {
                    address: "127.0.0.1".to_string(),
                    port: 80,
                    tls: None,
                },
                registry: RegistryConfig {
                    address: "127.0.0.1".to_string(),
                    port: 80,
                },
            },
            PeerConfig {
                name: "node2".to_string(),
                raft: RaftConfig {
                    address: "127.0.0.1".to_string(),
                    port: 80,
                    tls: None,
                },
                registry: RegistryConfig {
                    address: "127.0.0.1".to_string(),
                    port: 80,
                },
            },
            PeerConfig {
                name: "node3".to_string(),
                raft: RaftConfig {
                    address: "127.0.0.1".to_string(),
                    port: 80,
                    tls: None,
                },
                registry: RegistryConfig {
                    address: "127.0.0.1".to_string(),
                    port: 80,
                },
            },
        ],
        ..Configuration::default()
    }
}

fn cluster_node_machine() -> Machine {
    Machine::new(&cluster_node_configuration())
}

#[test]
fn single_node_become_leader() {
    let mut log = Log::new();
    let mut m = single_node_machine();

    m.step(
        &mut log,
        &Envelope {
            source: "node1".to_string(),
            destination: "node1".to_string(),
            message: Message::Tick {},
            term: 0,
        },
    )
    .unwrap();

    assert_eq!(m.state, PeerState::Leader);
    assert_eq!(m.term, 1);
    assert_eq!(m.outbox.len(), 0);
}

#[test]
fn cluster_node_become_pre_candidate() {
    let mut log = Log::new();
    let mut m = cluster_node_machine();

    m.step(
        &mut log,
        &Envelope {
            source: "node1".to_string(),
            destination: "node1".to_string(),
            message: Message::Tick {},
            term: 0,
        },
    )
    .unwrap();

    m.outbox.sort();

    assert_eq!(m.state, PeerState::PreCandidate);
    assert_eq!(m.outbox.len(), 2);
    assert_eq!(
        m.outbox,
        vec![
            Envelope {
                source: "node1".to_string(),
                destination: "node2".to_string(),
                term: 2,
                message: Message::PreVote { index: 0 }
            },
            Envelope {
                source: "node1".to_string(),
                destination: "node3".to_string(),
                term: 2,
                message: Message::PreVote { index: 0 }
            }
        ]
    );
}

#[test]
fn cluster_node_pre_candidate_timeout() {
    let mut log = Log::new();
    let mut m = cluster_node_machine();

    m.step(
        &mut log,
        &Envelope {
            source: "node1".to_string(),
            destination: "node1".to_string(),
            message: Message::Tick {},
            term: 0,
        },
    )
    .unwrap();

    assert_eq!(m.state, PeerState::PreCandidate);
    assert_eq!(m.outbox.len(), 2);

    // Next tick occurs after voting period times out

    m.step(
        &mut log,
        &Envelope {
            source: "node1".to_string(),
            destination: "node1".to_string(),
            message: Message::Tick {},
            term: 0,
        },
    )
    .unwrap();

    assert_eq!(m.state, PeerState::Follower);
    assert_eq!(m.outbox.len(), 0);
}

#[test]
fn cluster_node_become_candidate() {
    let mut log = Log::new();
    let mut m = cluster_node_machine();

    m.step(
        &mut log,
        &Envelope {
            source: "node1".to_string(),
            destination: "node1".to_string(),
            message: Message::Tick {},
            term: 0,
        },
    )
    .unwrap();

    assert_eq!(m.state, PeerState::PreCandidate);
    assert_eq!(m.outbox.len(), 2);

    // A single prevote lets us become a candidate

    m.step(
        &mut log,
        &Envelope {
            source: "node2".to_string(),
            destination: "node1".to_string(),
            message: Message::PreVoteReply { reject: false },
            term: 0,
        },
    )
    .unwrap();

    m.outbox.sort();

    assert_eq!(m.state, PeerState::Candidate);
    assert_eq!(m.term, 2);
    assert_eq!(m.voted_for, Some("node1".to_string()));
    assert_eq!(m.outbox.len(), 2);
    assert_eq!(
        m.outbox,
        vec![
            Envelope {
                source: "node1".to_string(),
                destination: "node2".to_string(),
                term: 2,
                message: Message::Vote { index: 0 }
            },
            Envelope {
                source: "node1".to_string(),
                destination: "node3".to_string(),
                term: 2,
                message: Message::Vote { index: 0 }
            }
        ]
    );
}

#[test]
fn cluster_node_candidate_timeout() {
    let mut log = Log::new();
    let mut m = cluster_node_machine();

    m.step(
        &mut log,
        &Envelope {
            source: "node1".to_string(),
            destination: "node1".to_string(),
            message: Message::Tick {},
            term: 0,
        },
    )
    .unwrap();

    assert_eq!(m.state, PeerState::PreCandidate);
    assert_eq!(m.outbox.len(), 2);

    // A single prevote lets us become a candidate

    m.step(
        &mut log,
        &Envelope {
            source: "node2".to_string(),
            destination: "node1".to_string(),
            message: Message::PreVoteReply { reject: false },
            term: 0,
        },
    )
    .unwrap();

    assert_eq!(m.state, PeerState::Candidate);
    assert_eq!(m.outbox.len(), 2);

    // But a tick before enough votes means we stay a follower

    m.step(
        &mut log,
        &Envelope {
            source: "node1".to_string(),
            destination: "node1".to_string(),
            message: Message::Tick {},
            term: 0,
        },
    )
    .unwrap();

    assert_eq!(m.state, PeerState::Follower);
    assert_eq!(m.outbox.len(), 0);
}

#[test]
fn cluster_node_become_leader() {
    let mut log = Log::new();
    let mut m = cluster_node_machine();

    m.step(
        &mut log,
        &Envelope {
            source: "node1".to_string(),
            destination: "node1".to_string(),
            message: Message::Tick {},
            term: 0,
        },
    )
    .unwrap();

    assert_eq!(m.state, PeerState::PreCandidate);
    assert_eq!(m.outbox.len(), 2);

    // A single prevote lets us become a candidate

    m.step(
        &mut log,
        &Envelope {
            source: "node2".to_string(),
            destination: "node1".to_string(),
            message: Message::PreVoteReply { reject: false },
            term: 0,
        },
    )
    .unwrap();

    assert_eq!(m.state, PeerState::Candidate);
    assert_eq!(m.outbox.len(), 2);

    // A single vote lets us become a leader

    m.step(
        &mut log,
        &Envelope {
            source: "node2".to_string(),
            destination: "node1".to_string(),
            message: Message::VoteReply { reject: false },
            term: 0,
        },
    )
    .unwrap();

    m.outbox.sort();

    assert_eq!(m.state, PeerState::Leader);
    assert_eq!(m.outbox.len(), 2);
    assert_eq!(
        m.outbox,
        vec![
            Envelope {
                source: "node1".to_string(),
                destination: "node2".to_string(),
                term: 2,
                message: Message::AppendEntries {
                    leader_commit: 0,
                    prev_index: 1,
                    prev_term: 2,
                    entries: vec![]
                }
            },
            Envelope {
                source: "node1".to_string(),
                destination: "node3".to_string(),
                term: 2,
                message: Message::AppendEntries {
                    leader_commit: 0,
                    prev_index: 1,
                    prev_term: 2,
                    entries: vec![]
                }
            }
        ]
    );
}

#[test]
fn leader_handle_append_entries_reply_success() {
    let mut log = Log::new();

    log.entries.extend(vec![LogEntry {
        term: 1,
        entry: RegistryAction::Empty,
    }]);
    log.entries.extend(vec![LogEntry {
        term: 1,
        entry: RegistryAction::Empty,
    }]);
    log.entries.extend(vec![LogEntry {
        term: 1,
        entry: RegistryAction::Empty,
    }]);

    let mut m = cluster_node_machine();
    m.term = 1;

    m.step(
        &mut log,
        &Envelope {
            source: "node1".to_string(),
            destination: "node1".to_string(),
            message: Message::Tick {},
            term: 1,
        },
    )
    .unwrap();

    assert_eq!(m.state, PeerState::PreCandidate);

    m.step(
        &mut log,
        &Envelope {
            source: "node2".to_string(),
            destination: "node1".to_string(),
            message: Message::PreVoteReply { reject: false },
            term: 0,
        },
    )
    .unwrap();

    assert_eq!(m.state, PeerState::Candidate);

    m.step(
        &mut log,
        &Envelope {
            source: "node2".to_string(),
            destination: "node1".to_string(),
            message: Message::VoteReply { reject: false },
            term: 0,
        },
    )
    .unwrap();

    assert_eq!(m.state, PeerState::Leader);

    m.outbox.sort();

    assert_eq!(
        m.outbox,
        vec![
            Envelope {
                source: "node1".to_string(),
                destination: "node2".to_string(),
                term: 2,
                message: Message::AppendEntries {
                    leader_commit: 0,
                    prev_index: 3,
                    prev_term: 1,
                    entries: vec![LogEntry {
                        term: 2,
                        entry: RegistryAction::Empty,
                    }]
                }
            },
            Envelope {
                source: "node1".to_string(),
                destination: "node3".to_string(),
                term: 2,
                message: Message::AppendEntries {
                    leader_commit: 0,
                    prev_index: 3,
                    prev_term: 1,
                    entries: vec![LogEntry {
                        term: 2,
                        entry: RegistryAction::Empty,
                    }]
                }
            }
        ]
    );

    m.step(
        &mut log,
        &Envelope {
            source: "node2".to_string(),
            destination: "node1".to_string(),
            message: Message::AppendEntriesReply {
                reject: false,
                log_index: Some(4),
            },
            term: 0,
        },
    )
    .unwrap();

    m.step(
        &mut log,
        &Envelope {
            source: "node3".to_string(),
            destination: "node1".to_string(),
            message: Message::AppendEntriesReply {
                reject: false,
                log_index: Some(4),
            },
            term: 0,
        },
    )
    .unwrap();

    let mut peers = m.peers.clone();
    peers.sort();

    assert_eq!(
        peers,
        vec![
            Peer {
                identifier: "node2".to_string(),
                next_index: 5,
                match_index: 4,
            },
            Peer {
                identifier: "node3".to_string(),
                next_index: 5,
                match_index: 4,
            }
        ]
    );
}

#[test]
fn append_entries_against_empty() {
    let mut log = Log::new();
    let mut m = cluster_node_machine();

    m.step(
        &mut log,
        &Envelope {
            source: "node2".to_string(),
            destination: "node1".to_string(),
            message: Message::AppendEntries {
                leader_commit: 0,
                prev_index: 0,
                prev_term: 0,
                entries: vec![LogEntry {
                    term: 2,
                    entry: RegistryAction::Empty,
                }],
            },
            term: 2,
        },
    )
    .unwrap();

    assert_eq!(m.state, PeerState::Follower);
    assert_eq!(m.leader, Some("node2".to_string()));
    assert_eq!(
        log.entries,
        vec![LogEntry {
            term: 2,
            entry: RegistryAction::Empty,
        }]
    );
    assert_eq!(m.commit_index, 0);

    assert_eq!(m.outbox.len(), 1);
    assert_eq!(
        m.outbox,
        vec![Envelope {
            source: "node1".to_string(),
            destination: "node2".to_string(),
            term: 1,
            message: Message::AppendEntriesReply {
                reject: false,
                log_index: Some(1),
            }
        },]
    );
}

#[test]
fn answer_pre_vote() {
    let mut log = Log::new();
    let mut m = cluster_node_machine();

    m.term = 1;

    m.step(
        &mut log,
        &Envelope {
            source: "node2".to_string(),
            destination: "node1".to_string(),
            message: Message::PreVote { index: 1 },
            term: 2,
        },
    )
    .unwrap();

    // Vote rejected because in same term and obedient
    assert_eq!(
        m.outbox,
        vec![Envelope {
            source: "node1".to_string(),
            destination: "node2".to_string(),
            term: 1,
            message: Message::PreVoteReply { reject: true }
        },]
    );

    // Becomes a PRE_CANDIDATE - no longer obedient
    m.step(
        &mut log,
        &Envelope {
            source: "node1".to_string(),
            destination: "node1".to_string(),
            message: Message::Tick {},
            term: 0,
        },
    )
    .unwrap();

    assert!(!m.obedient);
    assert_eq!(m.state, PeerState::PreCandidate);
    assert_eq!(m.term, 1);

    //  In a later term and not obedient
    m.step(
        &mut log,
        &Envelope {
            source: "node2".to_string(),
            destination: "node1".to_string(),
            message: Message::PreVote { index: 1 },
            term: 2,
        },
    )
    .unwrap();

    assert_eq!(
        m.outbox,
        vec![Envelope {
            source: "node1".to_string(),
            destination: "node2".to_string(),
            term: 1,
            message: Message::PreVoteReply { reject: false }
        },]
    );

    // Hasn't actually voted so this shouldn't be set
    assert_eq!(m.voted_for, None);
}

#[test]
fn answer_vote() {
    let mut log = Log::new();
    let mut m = cluster_node_machine();

    m.term = 1;

    m.step(
        &mut log,
        &Envelope {
            source: "node2".to_string(),
            destination: "node1".to_string(),
            message: Message::Vote { index: 1 },
            term: 2,
        },
    )
    .unwrap();

    // Vote rejected because in same term and obedient
    assert_eq!(
        m.outbox,
        vec![Envelope {
            source: "node1".to_string(),
            destination: "node2".to_string(),
            term: 1,
            message: Message::VoteReply { reject: true }
        },]
    );

    // Becomes a PRE_CANDIDATE - no longer obedient
    m.step(
        &mut log,
        &Envelope {
            source: "node1".to_string(),
            destination: "node1".to_string(),
            message: Message::Tick {},
            term: 0,
        },
    )
    .unwrap();

    assert!(!m.obedient);
    assert_eq!(m.state, PeerState::PreCandidate);
    assert_eq!(m.term, 1);

    // Not obedient
    m.step(
        &mut log,
        &Envelope {
            source: "node2".to_string(),
            destination: "node1".to_string(),
            message: Message::Vote { index: 1 },
            term: 1,
        },
    )
    .unwrap();

    // But a vote in an old term is denied
    assert_eq!(
        m.outbox,
        vec![Envelope {
            source: "node1".to_string(),
            destination: "node2".to_string(),
            term: 1,
            message: Message::VoteReply { reject: true }
        },]
    );

    // Not obedient and vote in new term
    m.step(
        &mut log,
        &Envelope {
            source: "node2".to_string(),
            destination: "node1".to_string(),
            message: Message::Vote { index: 1 },
            term: 2,
        },
    )
    .unwrap();

    assert_eq!(
        m.outbox,
        vec![Envelope {
            source: "node1".to_string(),
            destination: "node2".to_string(),
            term: 1,
            message: Message::VoteReply { reject: false }
        },]
    );

    assert_eq!(m.voted_for, Some("node2".to_string()));
}

#[test]
fn append_entries_revoke_previous_log_entry() {
    let mut log = Log::new();

    // Recovered from saved log
    log.entries.extend(vec![LogEntry {
        term: 1,
        entry: RegistryAction::BlobMounted {
            timestamp: 0,
            digest: "sha256:1234".parse().unwrap(),
            repository: "foo".parse().unwrap(),
            user: "test".to_string(),
        },
    }]);

    // Committed when became leader
    log.entries.extend(vec![LogEntry {
        term: 2,
        entry: RegistryAction::Empty,
    }]);

    let mut m = cluster_node_machine();
    m.term = 2;

    m.step(
        &mut log,
        &Envelope {
            source: "node2".to_string(),
            destination: "node1".to_string(),
            message: Message::AppendEntries {
                leader_commit: 0,
                prev_index: 2,
                prev_term: 3,
                entries: vec![],
            },
            term: 3,
        },
    )
    .unwrap();

    assert_eq!(
        log.entries[1],
        LogEntry {
            term: 2,
            entry: RegistryAction::Empty
        }
    );

    assert_eq!(
        m.outbox,
        vec![Envelope {
            source: "node1".to_string(),
            destination: "node2".to_string(),
            term: 2,
            message: Message::AppendEntriesReply {
                reject: true,
                log_index: None,
            }
        },]
    );

    m.step(
        &mut log,
        &Envelope {
            source: "node2".to_string(),
            destination: "node1".to_string(),
            message: Message::AppendEntries {
                leader_commit: 0,
                prev_index: 1,
                prev_term: 1,
                entries: vec![LogEntry {
                    term: 3,
                    entry: RegistryAction::Empty,
                }],
            },
            term: 3,
        },
    )
    .unwrap();

    assert_eq!(
        log.entries[1],
        LogEntry {
            term: 3,
            entry: RegistryAction::Empty
        }
    );
    assert_eq!(
        m.outbox,
        vec![Envelope {
            source: "node1".to_string(),
            destination: "node2".to_string(),
            term: 2,
            message: Message::AppendEntriesReply {
                reject: false,
                log_index: Some(2),
            }
        },]
    );
}

#[test]
fn find_inconsistencies() {
    let n = find_first_inconsistency(
        vec![
            LogEntry {
                term: 1,
                entry: RegistryAction::Empty,
            },
            LogEntry {
                term: 1,
                entry: RegistryAction::Empty,
            },
            LogEntry {
                term: 1,
                entry: RegistryAction::Empty,
            },
        ],
        vec![
            LogEntry {
                term: 2,
                entry: RegistryAction::Empty,
            },
            LogEntry {
                term: 2,
                entry: RegistryAction::Empty,
            },
            LogEntry {
                term: 3,
                entry: RegistryAction::Empty,
            },
        ],
    );

    assert_eq!(n, 0);

    let n = find_first_inconsistency(
        vec![
            LogEntry {
                term: 1,
                entry: RegistryAction::Empty,
            },
            LogEntry {
                term: 1,
                entry: RegistryAction::Empty,
            },
            LogEntry {
                term: 1,
                entry: RegistryAction::Empty,
            },
        ],
        vec![
            LogEntry {
                term: 1,
                entry: RegistryAction::Empty,
            },
            LogEntry {
                term: 2,
                entry: RegistryAction::Empty,
            },
            LogEntry {
                term: 3,
                entry: RegistryAction::Empty,
            },
        ],
    );

    assert_eq!(n, 1);

    let n = find_first_inconsistency(
        vec![
            LogEntry {
                term: 1,
                entry: RegistryAction::Empty,
            },
            LogEntry {
                term: 1,
                entry: RegistryAction::Empty,
            },
            LogEntry {
                term: 1,
                entry: RegistryAction::Empty,
            },
        ],
        vec![
            LogEntry {
                term: 1,
                entry: RegistryAction::Empty,
            },
            LogEntry {
                term: 1,
                entry: RegistryAction::Empty,
            },
            LogEntry {
                term: 3,
                entry: RegistryAction::Empty,
            },
        ],
    );

    assert_eq!(n, 2);

    let n = find_first_inconsistency(
        vec![
            LogEntry {
                term: 1,
                entry: RegistryAction::Empty,
            },
            LogEntry {
                term: 1,
                entry: RegistryAction::Empty,
            },
            LogEntry {
                term: 1,
                entry: RegistryAction::Empty,
            },
            LogEntry {
                term: 1,
                entry: RegistryAction::Empty,
            },
        ],
        vec![
            LogEntry {
                term: 1,
                entry: RegistryAction::Empty,
            },
            LogEntry {
                term: 1,
                entry: RegistryAction::Empty,
            },
            LogEntry {
                term: 1,
                entry: RegistryAction::Empty,
            },
        ],
    );

    assert_eq!(n, 3);

    let n = find_first_inconsistency(
        vec![
            LogEntry {
                term: 1,
                entry: RegistryAction::Empty,
            },
            LogEntry {
                term: 1,
                entry: RegistryAction::Empty,
            },
            LogEntry {
                term: 1,
                entry: RegistryAction::Empty,
            },
        ],
        vec![
            LogEntry {
                term: 1,
                entry: RegistryAction::Empty,
            },
            LogEntry {
                term: 1,
                entry: RegistryAction::Empty,
            },
            LogEntry {
                term: 1,
                entry: RegistryAction::Empty,
            },
            LogEntry {
                term: 1,
                entry: RegistryAction::Empty,
            },
        ],
    );

    assert_eq!(n, 3);
}
