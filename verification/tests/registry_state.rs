use distribd::state::RegistryState;
use distribd::types::{Digest, RegistryAction, RepositoryName};

fn setup_state() -> RegistryState {
    RegistryState::new("foo".to_string())
}

// BLOB TESTS

#[test]
fn blob_not_available_initially() {
    let state = setup_state();

    let repository = "myrepo".parse().unwrap();
    let digest = "sha256:abcdefg".parse().unwrap();

    assert!(!state.is_blob_available(&repository, &digest))
}

#[test]
fn blob_becomes_available() {
    let mut state = setup_state();

    let repository: RepositoryName = "myrepo".parse().unwrap();
    let digest: Digest = "sha256:abcdefg".parse().unwrap();

    state.dispatch_actions(vec![RegistryAction::BlobMounted {
        timestamp: 1,
        user: "test".to_string(),
        repository: repository,
        digest: digest,
    }]);

    let repository: RepositoryName = "myrepo".parse().unwrap();
    let digest: Digest = "sha256:abcdefg".parse().unwrap();

    assert!(state.is_blob_available(&repository, &digest));
}

#[test]
fn blob_metadata() {
    let mut state = setup_state();

    let repository: RepositoryName = "myrepo".parse().unwrap();
    let digest: Digest = "sha256:abcdefg".parse().unwrap();
    let dependency: Digest = "sha256:zxyjkl".parse().unwrap();

    state.dispatch_actions(vec![
        RegistryAction::BlobMounted {
            timestamp: 1,
            user: "test".to_string(),
            repository: repository.clone(),
            digest: digest.clone(),
        },
        RegistryAction::BlobInfo {
            timestamp: 2,
            digest: digest,
            content_type: "application/json".to_string(),
            dependencies: vec![dependency],
        },
    ]);

    let digest: Digest = "sha256:abcdefg".parse().unwrap();

    let item = state.get_blob_directly(&digest).unwrap();
    assert_eq!(item.content_type, Some("application/json".to_string()));
    assert_eq!(item.dependencies.as_ref().unwrap().len(), 1);

    let dependencies: Vec<Digest> = vec!["sha256:zxyjkl".parse().unwrap()];
    assert_eq!(item.dependencies, Some(dependencies));
}

#[test]
fn blob_size() {
    let mut state = setup_state();

    let repository: RepositoryName = "myrepo".parse().unwrap();
    let digest: Digest = "sha256:abcdefg".parse().unwrap();

    state.dispatch_actions(vec![RegistryAction::BlobMounted {
        timestamp: 1,
        user: "test".to_string(),
        repository: repository,
        digest: digest,
    }]);

    let digest: Digest = "sha256:abcdefg".parse().unwrap();

    state.dispatch_actions(vec![RegistryAction::BlobStat {
        timestamp: 2,
        digest: digest,
        size: 1234,
    }]);

    let digest: Digest = "sha256:abcdefg".parse().unwrap();
    let item = state.get_blob_directly(&digest).unwrap();

    assert_eq!(item.size, Some(1234));
}

#[test]
fn blob_becomes_unavailable() {
    let mut state = setup_state();

    let repository: RepositoryName = "myrepo".parse().unwrap();
    let digest: Digest = "sha256:abcdefg".parse().unwrap();

    state.dispatch_actions(vec![RegistryAction::BlobMounted {
        timestamp: 1,
        user: "test".to_string(),
        repository: repository,
        digest: digest,
    }]);

    let repository: RepositoryName = "myrepo".parse().unwrap();
    let digest: Digest = "sha256:abcdefg".parse().unwrap();

    state.dispatch_actions(vec![RegistryAction::BlobUnmounted {
        timestamp: 2,
        user: "test".to_string(),
        repository: repository,
        digest: digest,
    }]);

    let repository: RepositoryName = "myrepo".parse().unwrap();
    let digest: Digest = "sha256:abcdefg".parse().unwrap();

    assert!(!state.is_blob_available(&repository, &digest));
}

#[test]
fn blob_becomes_available_again() {
    let mut state = setup_state();

    // Create node
    let repository: RepositoryName = "myrepo".parse().unwrap();
    let digest: Digest = "sha256:abcdefg".parse().unwrap();

    state.dispatch_actions(vec![RegistryAction::BlobMounted {
        timestamp: 1,
        user: "test".to_string(),
        repository: repository,
        digest: digest,
    }]);

    // Make node unavailable
    let repository: RepositoryName = "myrepo".parse().unwrap();
    let digest: Digest = "sha256:abcdefg".parse().unwrap();

    state.dispatch_actions(vec![RegistryAction::BlobUnmounted {
        timestamp: 2,
        user: "test".to_string(),
        repository: repository,
        digest: digest,
    }]);

    // Make node available again
    let repository: RepositoryName = "myrepo".parse().unwrap();
    let digest: Digest = "sha256:abcdefg".parse().unwrap();

    state.dispatch_actions(vec![RegistryAction::BlobMounted {
        timestamp: 3,
        user: "test".to_string(),
        repository: repository,
        digest: digest,
    }]);

    // Should be visible...
    let repository: RepositoryName = "myrepo".parse().unwrap();
    let digest: Digest = "sha256:abcdefg".parse().unwrap();

    assert!(state.is_blob_available(&repository, &digest));
}

// MANIFEST TESTS

#[test]
fn manifest_not_available_initially() {
    let state = setup_state();

    let repository = "myrepo".parse().unwrap();
    let digest = "sha256:abcdefg".parse().unwrap();

    assert!(!state.is_manifest_available(&repository, &digest))
}

#[test]
fn manifest_becomes_available() {
    let mut state = setup_state();

    let repository: RepositoryName = "myrepo".parse().unwrap();
    let digest: Digest = "sha256:abcdefg".parse().unwrap();

    state.dispatch_actions(vec![RegistryAction::ManifestMounted {
        timestamp: 1,
        user: "test".to_string(),
        repository: repository,
        digest: digest,
    }]);

    let repository: RepositoryName = "myrepo".parse().unwrap();
    let digest: Digest = "sha256:abcdefg".parse().unwrap();

    assert!(state.is_manifest_available(&repository, &digest));
}

#[test]
fn manifest_metadata() {
    let mut state = setup_state();

    let repository: RepositoryName = "myrepo".parse().unwrap();
    let digest: Digest = "sha256:abcdefg".parse().unwrap();

    state.dispatch_actions(vec![RegistryAction::ManifestMounted {
        timestamp: 1,
        user: "test".to_string(),
        repository: repository,
        digest: digest,
    }]);

    let digest: Digest = "sha256:abcdefg".parse().unwrap();
    let dependency: Digest = "sha256:zxyjkl".parse().unwrap();

    state.dispatch_actions(vec![RegistryAction::ManifestInfo {
        timestamp: 2,
        digest: digest,
        content_type: "application/json".to_string(),
        dependencies: vec![dependency],
    }]);

    let digest: Digest = "sha256:abcdefg".parse().unwrap();
    let item = state.get_manifest_directly(&digest).unwrap();

    assert_eq!(item.content_type, Some("application/json".to_string()));
    assert_eq!(item.dependencies.as_ref().unwrap().len(), 1);

    let dependencies: Vec<Digest> = vec!["sha256:zxyjkl".parse().unwrap()];
    assert_eq!(item.dependencies, Some(dependencies));
}

#[test]
fn manifest_size() {
    let mut state = setup_state();

    let repository: RepositoryName = "myrepo".parse().unwrap();
    let digest: Digest = "sha256:abcdefg".parse().unwrap();

    state.dispatch_actions(vec![RegistryAction::ManifestMounted {
        timestamp: 1,
        user: "test".to_string(),
        repository: repository,
        digest: digest,
    }]);

    let digest: Digest = "sha256:abcdefg".parse().unwrap();

    state.dispatch_actions(vec![RegistryAction::ManifestStat {
        timestamp: 2,
        digest: digest,
        size: 1234,
    }]);

    let digest: Digest = "sha256:abcdefg".parse().unwrap();
    let item = state.get_manifest_directly(&digest).unwrap();

    assert_eq!(item.size, Some(1234));
}

#[test]
fn manifest_becomes_unavailable() {
    let mut state = setup_state();

    let repository: RepositoryName = "myrepo".parse().unwrap();
    let digest: Digest = "sha256:abcdefg".parse().unwrap();

    state.dispatch_actions(vec![RegistryAction::ManifestMounted {
        timestamp: 1,
        user: "test".to_string(),
        repository: repository,
        digest: digest,
    }]);

    let repository: RepositoryName = "myrepo".parse().unwrap();
    let digest: Digest = "sha256:abcdefg".parse().unwrap();

    state.dispatch_actions(vec![RegistryAction::ManifestUnmounted {
        timestamp: 2,
        user: "test".to_string(),
        repository: repository,
        digest: digest,
    }]);

    let repository: RepositoryName = "myrepo".parse().unwrap();
    let digest: Digest = "sha256:abcdefg".parse().unwrap();

    assert!(!state.is_manifest_available(&repository, &digest));
}

#[test]
fn manifest_becomes_available_again() {
    let mut state = setup_state();

    // Create node
    let repository: RepositoryName = "myrepo".parse().unwrap();
    let digest: Digest = "sha256:abcdefg".parse().unwrap();

    state.dispatch_actions(vec![RegistryAction::ManifestMounted {
        timestamp: 1,
        user: "test".to_string(),
        repository: repository,
        digest: digest,
    }]);

    // Make node unavailable
    let repository: RepositoryName = "myrepo".parse().unwrap();
    let digest: Digest = "sha256:abcdefg".parse().unwrap();

    state.dispatch_actions(vec![RegistryAction::ManifestUnmounted {
        timestamp: 2,
        user: "test".to_string(),
        repository: repository,
        digest: digest,
    }]);

    // Make node available again
    let repository: RepositoryName = "myrepo".parse().unwrap();
    let digest: Digest = "sha256:abcdefg".parse().unwrap();

    state.dispatch_actions(vec![RegistryAction::ManifestMounted {
        timestamp: 3,
        user: "test".to_string(),
        repository: repository,
        digest: digest,
    }]);

    // Should be visible...
    let repository: RepositoryName = "myrepo".parse().unwrap();
    let digest: Digest = "sha256:abcdefg".parse().unwrap();

    assert!(state.is_manifest_available(&repository, &digest));
}

#[test]
fn can_tag_manifest() {
    let mut state = setup_state();

    // Create node
    let repository: RepositoryName = "myrepo".parse().unwrap();
    let digest: Digest = "sha256:abcdefg".parse().unwrap();

    state.dispatch_actions(vec![RegistryAction::HashTagged {
        timestamp: 1,
        user: "test".to_string(),
        repository: repository,
        digest: digest,
        tag: "latest".to_string(),
    }]);

    let repository: RepositoryName = "myrepo2".parse().unwrap();
    assert!(matches!(state.get_tags(&repository), None));

    let repository: RepositoryName = "myrepo".parse().unwrap();
    assert_eq!(
        state.get_tags(&repository).unwrap(),
        vec!["latest".to_string()]
    );
}
