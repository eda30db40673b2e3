use distribd::config::{ConfigError, Configuration, PeerConfig, RaftConfig, RegistryConfig};
use distribd::gc::plan_phase2;
use distribd::hashing::{bytes_match_digest, digest_of_bytes, hex_encode};
use distribd::mirror::{
    choose_url, conclude_transfer, get_tasks_from_raft_event, plan_transfer, MirrorPlan,
    MirrorRequest, MirrorResult, RaftEvent,
};
use distribd::log::{Log, LogEntry};
use distribd::machine::{Envelope, Machine, Message, PeerState};
use distribd::paths::{get_blob_path, get_manifest_path, get_temp_path, get_upload_path, u64_to_string};
use distribd::state::RegistryState;
use distribd::types::{Digest, RegistryAction, RepositoryName};
use distribd::uploads::{blob_upload_actions, manifest_upload_actions};

fn known_digest() -> Digest {
    // A value wide enough to shard into a storage path.
    "sha256:aabbccddeeff00112233".parse().unwrap()
}

#[test]
fn digest_parses_canonical_form() {
    let d: Digest = "sha256:abcdef".parse().unwrap();
    assert_eq!(d.algo, "sha256");
    assert_eq!(d.hash, "abcdef");

    // The split happens at the first colon.
    let d: Digest = "sha256:ab:cd".parse().unwrap();
    assert_eq!(d.algo, "sha256");
    assert_eq!(d.hash, "ab:cd");
}

#[test]
fn digest_rejects_malformed_forms() {
    assert!("nocolon".parse::<Digest>().is_err());
    assert!(":hash".parse::<Digest>().is_err());
    assert!("sha256:".parse::<Digest>().is_err());
}

#[test]
fn sha256_digest_of_known_bytes() {
    // A classic test vector for SHA-256.
    let d = digest_of_bytes(b"abc");
    assert_eq!(d.algo, "sha256");
    assert_eq!(
        d.hash,
        "ba7816bf8f01cfea414140de5dae2223b00361a396177a9cb410ff61f20015ad"
    );

    assert!(bytes_match_digest(b"abc", &d));
    assert!(!bytes_match_digest(b"abd", &d));
}

#[test]
fn hex_encoding_is_lower_case_pairwise() {
    assert_eq!(hex_encode(&vec![0xbe, 0xef]), "beef");
    assert_eq!(hex_encode(&vec![0x00, 0x0a]), "000a");
    assert_eq!(hex_encode(&vec![]), "");
}

#[test]
fn decimal_rendering() {
    assert_eq!(u64_to_string(0), "0");
    assert_eq!(u64_to_string(7), "7");
    assert_eq!(u64_to_string(8080), "8080");
    assert_eq!(u64_to_string(18446744073709551615), "18446744073709551615");
}

#[test]
fn sharded_object_paths() {
    let d = known_digest();
    assert_eq!(
        get_blob_path("var", &d),
        "var/blobs/aa/bb/cc/ddeeff00112233"
    );
    assert_eq!(
        get_manifest_path("var", &d),
        "var/manifests/aa/bb/cc/ddeeff00112233"
    );
    assert_eq!(get_upload_path("var", "xyz"), "var/uploads/blob-xyz");
    let t = get_temp_path("var");
    assert!(t.starts_with("var/uploads/manifest-"));
    assert_eq!(t.len(), "var/uploads/manifest-".len() + 36);
}

#[test]
fn node_id_from_identifier() {
    let mut config = Configuration::default();
    assert_eq!(config.id().unwrap(), 1);

    config.identifier = "prod-registry-11".to_string();
    assert_eq!(config.id().unwrap(), 12);

    config.identifier = "nodash".to_string();
    assert_eq!(config.id(), Err(ConfigError::InvalidIdentifier));

    config.identifier = "node-x".to_string();
    assert_eq!(config.id(), Err(ConfigError::NotANumber));

    config.identifier = "node-".to_string();
    assert_eq!(config.id(), Err(ConfigError::NotANumber));

    config.identifier = "node-18446744073709551615".to_string();
    assert_eq!(config.id(), Err(ConfigError::NotANumber));
}

#[test]
fn tag_round_trip() {
    let mut state = RegistryState::new("node1".to_string());
    let repository: RepositoryName = "myrepo".parse().unwrap();
    let digest = known_digest();

    state.dispatch_actions(vec![RegistryAction::HashTagged {
        timestamp: 5,
        user: "test".to_string(),
        repository: repository.clone(),
        digest: digest.clone(),
        tag: "latest".to_string(),
    }]);

    assert_eq!(
        state.get_tag(&repository, &"latest".to_string()),
        Some(digest.clone())
    );

    // The latest write wins.
    let other: Digest = "sha256:0011223344556677".parse().unwrap();
    state.dispatch_actions(vec![RegistryAction::HashTagged {
        timestamp: 6,
        user: "test".to_string(),
        repository: repository.clone(),
        digest: other.clone(),
        tag: "latest".to_string(),
    }]);
    assert_eq!(state.get_tag(&repository, &"latest".to_string()), Some(other));
}

fn two_node_configuration() -> Configuration {
    Configuration {
        identifier: "node1".to_string(),
        peers: vec![
            PeerConfig {
                name: "node1".to_string(),
                raft: RaftConfig {
                    address: "127.0.0.1".to_string(),
                    port: 8080,
                    tls: None,
                },
                registry: RegistryConfig {
                    address: "127.0.0.1".to_string(),
                    port: 8000,
                },
            },
            PeerConfig {
                name: "node2".to_string(),
                raft: RaftConfig {
                    address: "127.0.0.2".to_string(),
                    port: 8080,
                    tls: None,
                },
                registry: RegistryConfig {
                    address: "127.0.0.2".to_string(),
                    port: 8000,
                },
            },
        ],
        ..Configuration::default()
    }
}

#[test]
fn mirror_tasks_from_committed_entries() {
    let digest = known_digest();
    let event = RaftEvent::Committed {
        start_index: 1,
        entries: vec![
            LogEntry {
                term: 1,
                entry: RegistryAction::Empty,
            },
            LogEntry {
                term: 1,
                entry: RegistryAction::BlobStored {
                    timestamp: 1,
                    user: "test".to_string(),
                    digest: digest.clone(),
                    location: "node2".to_string(),
                },
            },
            LogEntry {
                term: 1,
                entry: RegistryAction::ManifestStored {
                    timestamp: 2,
                    user: "test".to_string(),
                    digest: digest.clone(),
                    location: "node2".to_string(),
                },
            },
        ],
    };
    let tasks = get_tasks_from_raft_event(event);
    assert_eq!(
        tasks,
        vec![
            MirrorRequest::Blob {
                digest: digest.clone()
            },
            MirrorRequest::Manifest { digest },
        ]
    );
}

#[test]
fn mirror_happy_path() {
    // node2 announces the blob; node1 sees the commit, fetches from
    // node2's registry endpoint, verifies the digest, and proposes its
    // own BlobStored.
    let config = two_node_configuration();
    let mut state = RegistryState::new("node1".to_string());
    let digest = known_digest();
    let repository: RepositoryName = "myrepo".parse().unwrap();

    state.dispatch_actions(vec![
        RegistryAction::BlobMounted {
            timestamp: 1,
            user: "test".to_string(),
            repository: repository.clone(),
            digest: digest.clone(),
        },
        RegistryAction::BlobStored {
            timestamp: 1,
            user: "test".to_string(),
            digest: digest.clone(),
            location: "node2".to_string(),
        },
    ]);

    let request = MirrorRequest::Blob {
        digest: digest.clone(),
    };
    let urls = match plan_transfer(&state, &config, &request) {
        MirrorPlan::Fetch { urls } => urls,
        MirrorPlan::Skip => panic!("expected a fetch plan"),
    };
    assert_eq!(
        urls,
        vec!["http://127.0.0.2:8000/v2/myrepo/blobs/sha256:aabbccddeeff00112233".to_string()]
    );
    let url = choose_url(&urls).unwrap();
    assert_eq!(url, urls[0]);

    assert_eq!(
        request.storage_path("var"),
        "var/blobs/aa/bb/cc/ddeeff00112233"
    );

    // The downloaded bytes hash to the requested digest: a Stored
    // proposal for this node comes back.
    let result = conclude_transfer(request, &digest, "node1".to_string(), 9);
    let action = match result {
        MirrorResult::Success { action, .. } => action,
        _ => panic!("expected success"),
    };
    assert_eq!(
        action,
        RegistryAction::BlobStored {
            timestamp: 9,
            user: "$internal".to_string(),
            digest: digest.clone(),
            location: "node1".to_string(),
        }
    );

    // Applying the proposal makes replaying the same request a no-op.
    state.dispatch_actions(vec![action]);
    let request = MirrorRequest::Blob {
        digest: digest.clone(),
    };
    assert!(matches!(
        plan_transfer(&state, &config, &request),
        MirrorPlan::Skip
    ));
}

#[test]
fn mirror_retries_on_wrong_digest() {
    let digest = known_digest();
    let request = MirrorRequest::Blob {
        digest: digest.clone(),
    };
    let wrong: Digest = "sha256:0011223344556677".parse().unwrap();
    let result = conclude_transfer(request, &wrong, "node1".to_string(), 9);
    match result {
        MirrorResult::Retry { request } => {
            assert_eq!(request, MirrorRequest::Blob { digest });
        },
        _ => panic!("expected a retry"),
    }
}

#[test]
fn gc_phase_two_reaps_unreferenced_local_blob() {
    // An entity with no repositories, stored here, older than the
    // minimum age: phase two names its file and the Unstored proposal,
    // whose apply removes the entity entirely.
    let mut state = RegistryState::new("node1".to_string());
    let digest = known_digest();

    state.dispatch_actions(vec![RegistryAction::BlobStored {
        timestamp: 0,
        user: "test".to_string(),
        digest: digest.clone(),
        location: "node1".to_string(),
    }]);

    let now = 60 * 60 * 12;
    let work = plan_phase2(&state, "var", now);
    assert_eq!(work.len(), 1);
    assert_eq!(work[0].path, "var/blobs/aa/bb/cc/ddeeff00112233");
    assert_eq!(
        work[0].action,
        RegistryAction::BlobUnstored {
            timestamp: now,
            user: "$system".to_string(),
            digest: digest.clone(),
            location: "node1".to_string(),
        }
    );

    state.dispatch_actions(vec![work[0].action.clone()]);
    assert!(state.get_blob_directly(&digest).is_none());
}

#[test]
fn gc_phase_two_respects_minimum_age() {
    let mut state = RegistryState::new("node1".to_string());
    let digest = known_digest();

    state.dispatch_actions(vec![RegistryAction::BlobStored {
        timestamp: 0,
        user: "test".to_string(),
        digest: digest.clone(),
        location: "node1".to_string(),
    }]);

    // One second short of the minimum age: nothing is reaped.
    let work = plan_phase2(&state, "var", 60 * 60 * 12 - 1);
    assert!(work.is_empty());
}

#[test]
fn gc_phase_two_skips_mounted_and_remote_entities() {
    let mut state = RegistryState::new("node1".to_string());
    let digest = known_digest();
    let other: Digest = "sha256:0011223344556677".parse().unwrap();
    let repository: RepositoryName = "myrepo".parse().unwrap();

    state.dispatch_actions(vec![
        // Still mounted: not orphaned.
        RegistryAction::BlobMounted {
            timestamp: 0,
            user: "test".to_string(),
            repository,
            digest: digest.clone(),
        },
        RegistryAction::BlobStored {
            timestamp: 0,
            user: "test".to_string(),
            digest: digest.clone(),
            location: "node1".to_string(),
        },
        // Orphaned but stored elsewhere.
        RegistryAction::BlobStored {
            timestamp: 0,
            user: "test".to_string(),
            digest: other,
            location: "node2".to_string(),
        },
    ]);

    let work = plan_phase2(&state, "var", 60 * 60 * 24);
    assert!(work.is_empty());
}

#[test]
fn log_replay_rebuilds_the_same_graph() {
    // Two nodes applying the same committed prefix end with the same
    // graph: the same queries give the same answers on both.
    let digest = known_digest();
    let repository: RepositoryName = "myrepo".parse().unwrap();
    let actions = vec![
        RegistryAction::BlobMounted {
            timestamp: 1,
            user: "test".to_string(),
            repository: repository.clone(),
            digest: digest.clone(),
        },
        RegistryAction::BlobStat {
            timestamp: 2,
            digest: digest.clone(),
            size: 77,
        },
        RegistryAction::BlobStored {
            timestamp: 3,
            user: "test".to_string(),
            digest: digest.clone(),
            location: "node2".to_string(),
        },
    ];

    let mut a = RegistryState::new("node1".to_string());
    let mut b = RegistryState::new("node2".to_string());
    a.dispatch_actions(actions.clone());
    b.dispatch_actions(actions);

    let ea = a.get_blob_directly(&digest).unwrap();
    let eb = b.get_blob_directly(&digest).unwrap();
    assert_eq!(ea, eb);
    assert_eq!(ea.size, Some(77));
    assert!(a.is_blob_available(&repository, &digest));
    assert!(b.is_blob_available(&repository, &digest));
}

#[test]
fn stored_twice_is_stored_once() {
    // Set insertion is idempotent: re-applying the same Stored action
    // leaves the graph unchanged.
    let digest = known_digest();
    let stored = RegistryAction::BlobStored {
        timestamp: 1,
        user: "test".to_string(),
        digest: digest.clone(),
        location: "node1".to_string(),
    };

    let mut once = RegistryState::new("node1".to_string());
    once.dispatch_actions(vec![stored.clone()]);
    let mut twice = RegistryState::new("node1".to_string());
    twice.dispatch_actions(vec![stored.clone(), stored]);

    assert_eq!(
        once.get_blob_directly(&digest).unwrap(),
        twice.get_blob_directly(&digest).unwrap()
    );
}

#[test]
fn waiters_wake_only_for_local_stores() {
    let state = RegistryState::new("node1".to_string());
    let digest = known_digest();
    let entries = vec![
        RegistryAction::BlobStored {
            timestamp: 1,
            user: "test".to_string(),
            digest: digest.clone(),
            location: "node1".to_string(),
        },
        RegistryAction::BlobStored {
            timestamp: 1,
            user: "test".to_string(),
            digest: digest.clone(),
            location: "node2".to_string(),
        },
        RegistryAction::ManifestStored {
            timestamp: 1,
            user: "test".to_string(),
            digest: digest.clone(),
            location: "node1".to_string(),
        },
    ];
    let (blobs, manifests) = state.dispatch_entries(&entries);
    assert_eq!(blobs, vec![digest.clone()]);
    assert_eq!(manifests, vec![digest]);
}

#[test]
fn commit_index_never_decreases() {
    let mut log = Log::new();
    let mut m = Machine::new(&two_node_configuration());

    // Adopt two entries from the leader, committing the first.
    m.step(
        &mut log,
        &Envelope {
            source: "node2".to_string(),
            destination: "node1".to_string(),
            message: Message::AppendEntries {
                leader_commit: 1,
                prev_index: 0,
                prev_term: 0,
                entries: vec![
                    LogEntry {
                        term: 1,
                        entry: RegistryAction::Empty,
                    },
                    LogEntry {
                        term: 1,
                        entry: RegistryAction::Empty,
                    },
                ],
            },
            term: 1,
        },
    )
    .unwrap();
    assert_eq!(m.state, PeerState::Follower);
    assert_eq!(m.commit_index, 1);

    // A heartbeat with a stale commit hint does not move it backwards.
    m.step(
        &mut log,
        &Envelope {
            source: "node2".to_string(),
            destination: "node1".to_string(),
            message: Message::AppendEntries {
                leader_commit: 0,
                prev_index: 2,
                prev_term: 1,
                entries: vec![],
            },
            term: 1,
        },
    )
    .unwrap();
    assert_eq!(m.commit_index, 1);

    // A fresher hint moves it forwards.
    m.step(
        &mut log,
        &Envelope {
            source: "node2".to_string(),
            destination: "node1".to_string(),
            message: Message::AppendEntries {
                leader_commit: 2,
                prev_index: 2,
                prev_term: 1,
                entries: vec![],
            },
            term: 1,
        },
    )
    .unwrap();
    assert_eq!(m.commit_index, 2);
}

#[test]
fn propose_on_follower_is_rejected() {
    let mut log = Log::new();
    let mut m = Machine::new(&two_node_configuration());
    let r = m.step(
        &mut log,
        &Envelope {
            source: "node1".to_string(),
            destination: "node1".to_string(),
            message: Message::AddEntries {
                entries: vec![RegistryAction::Empty],
            },
            term: 0,
        },
    );
    assert!(r.is_err());
    assert_eq!(log.entries.len(), 0);
}

#[test]
fn blob_upload_commits_mount_stat_store() {
    let repository: RepositoryName = "myrepo".parse().unwrap();
    let digest = known_digest();
    let actions = blob_upload_actions(
        &repository,
        &digest,
        1234,
        &"node1".to_string(),
        &"alice".to_string(),
        7,
    );
    assert_eq!(
        actions,
        vec![
            RegistryAction::BlobMounted {
                timestamp: 7,
                user: "alice".to_string(),
                digest: digest.clone(),
                repository: repository.clone(),
            },
            RegistryAction::BlobStat {
                timestamp: 7,
                digest: digest.clone(),
                size: 1234,
            },
            RegistryAction::BlobStored {
                timestamp: 7,
                user: "alice".to_string(),
                digest: digest.clone(),
                location: "node1".to_string(),
            },
        ]
    );
}

#[test]
fn manifest_upload_commits_extracted_actions_in_order() {
    let repository: RepositoryName = "myrepo".parse().unwrap();
    let digest = known_digest();
    let dependency: Digest = "sha256:0011223344556677".parse().unwrap();
    let extracted = vec![RegistryAction::BlobMounted {
        timestamp: 7,
        user: "alice".to_string(),
        digest: dependency.clone(),
        repository: repository.clone(),
    }];
    let actions = manifest_upload_actions(
        &repository,
        &digest,
        99,
        &"node1".to_string(),
        &"alice".to_string(),
        &"latest".to_string(),
        extracted.clone(),
        7,
    );
    assert_eq!(actions.len(), 5);
    assert_eq!(
        actions[0],
        RegistryAction::ManifestMounted {
            timestamp: 7,
            user: "alice".to_string(),
            digest: digest.clone(),
            repository: repository.clone(),
        }
    );
    assert_eq!(actions[3], extracted[0]);
    assert_eq!(
        actions[4],
        RegistryAction::HashTagged {
            timestamp: 7,
            user: "alice".to_string(),
            digest: digest.clone(),
            repository: repository.clone(),
            tag: "latest".to_string(),
        }
    );
}

#[test]
fn log_append_get_and_last_index() {
    let mut log = Log::new();
    assert_eq!(log.last_index(), 0);
    assert_eq!(log.last_term(), 0);

    log.append(LogEntry {
        term: 1,
        entry: RegistryAction::Empty,
    });
    log.append(LogEntry {
        term: 2,
        entry: RegistryAction::Empty,
    });

    // Entries are numbered from one.
    assert_eq!(log.last_index(), 2);
    assert_eq!(log.last_term(), 2);
    assert_eq!(log.get(1).term, 1);
    assert_eq!(log.get(2).term, 2);
}

#[test]
fn log_truncate_keeps_the_named_entry() {
    let mut log = Log::new();
    for term in 1..=4 {
        log.append(LogEntry {
            term,
            entry: RegistryAction::Empty,
        });
    }

    log.truncate(2);
    assert_eq!(log.last_index(), 2);
    assert_eq!(log.get(2).term, 2);
    assert_eq!(log.truncate_index, Some(2));

    // Truncating past the end changes nothing.
    log.truncate(10);
    assert_eq!(log.last_index(), 2);
}
