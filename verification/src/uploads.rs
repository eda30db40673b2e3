//! What a finished upload commits.  Once the uploaded bytes have been
//! verified against their digest and renamed into place, the uploader
//! proposes one batch of actions; these functions pin down exactly
//! which actions, in which order, with which fields.
use vstd::prelude::*;

use crate::state::actions_view;
use crate::types::{ActionView, Digest, RegistryAction, RepositoryName};

verus! {

/// The batch committed for a completed blob upload: mount it in the
/// repository it was pushed to, record its size, and record that this
/// node holds the bytes.
pub fn blob_upload_actions(
    repository: &RepositoryName,
    digest: &Digest,
    size: u64,
    location: &String,
    user: &String,
    timestamp: i64,
) -> (r: Vec<RegistryAction>)
    ensures
        r@.len() == 3,
        r@[0]@ == (ActionView::BlobMounted {
            timestamp: timestamp as int,
            user: user@,
            digest: digest@,
            repository: repository@,
        }),
        r@[1]@ == (ActionView::BlobStat { timestamp: timestamp as int, digest: digest@, size }),
        r@[2]@ == (ActionView::BlobStored {
            timestamp: timestamp as int,
            user: user@,
            digest: digest@,
            location: location@,
        }),
{
    let mut r: Vec<RegistryAction> = Vec::new();
    r.push(
        RegistryAction::BlobMounted {
            timestamp,
            digest: digest.duplicate(),
            repository: repository.duplicate(),
            user: user.clone(),
        },
    );
    r.push(
        RegistryAction::BlobStat { timestamp, digest: digest.duplicate(), size },
    );
    r.push(
        RegistryAction::BlobStored {
            timestamp,
            digest: digest.duplicate(),
            location: location.clone(),
            user: user.clone(),
        },
    );
    r
}

/// The batch committed for a completed manifest upload: mount and
/// store the manifest, record its size, append whatever actions the
/// extractor derived from its contents, and finally bind the pushed
/// tag to its digest.
pub fn manifest_upload_actions(
    repository: &RepositoryName,
    digest: &Digest,
    size: u64,
    location: &String,
    user: &String,
    tag: &String,
    extracted: Vec<RegistryAction>,
    timestamp: i64,
) -> (r: Vec<RegistryAction>)
    ensures
        r@.len() == extracted@.len() + 4,
        actions_view(r@) =~= seq![
            ActionView::ManifestMounted {
                timestamp: timestamp as int,
                user: user@,
                digest: digest@,
                repository: repository@,
            },
            ActionView::ManifestStored {
                timestamp: timestamp as int,
                user: user@,
                digest: digest@,
                location: location@,
            },
            ActionView::ManifestStat { timestamp: timestamp as int, digest: digest@, size },
        ] + actions_view(extracted@) + seq![
            ActionView::HashTagged {
                timestamp: timestamp as int,
                user: user@,
                digest: digest@,
                repository: repository@,
                tag: tag@,
            },
        ],
{
    let mut r: Vec<RegistryAction> = Vec::new();
    r.push(
        RegistryAction::ManifestMounted {
            timestamp,
            digest: digest.duplicate(),
            repository: repository.duplicate(),
            user: user.clone(),
        },
    );
    r.push(
        RegistryAction::ManifestStored {
            timestamp,
            digest: digest.duplicate(),
            location: location.clone(),
            user: user.clone(),
        },
    );
    r.push(
        RegistryAction::ManifestStat { timestamp, digest: digest.duplicate(), size },
    );
    let ghost head = r@;
    let n = extracted.len();
    let mut i: usize = 0;
    while i < n
        invariant
            n == extracted@.len(),
            0 <= i <= n,
            r@.len() == head.len() + i,
            r@.take(head.len() as int) == head,
            forall|j: int| 0 <= j < i ==> (#[trigger] r@[head.len() + j])@ == extracted@[j]@,
        decreases n - i,
    {
        let a = extracted[i].duplicate();
        proof {
            assert(a@ == extracted@[i as int]@);
        }
        r.push(a);
        proof {
            assert(r@.take(head.len() as int) =~= head);
        }
        i = i + 1;
    }
    let ghost body = r@;
    r.push(
        RegistryAction::HashTagged {
            timestamp,
            digest: digest.duplicate(),
            repository: repository.duplicate(),
            tag: tag.clone(),
            user: user.clone(),
        },
    );
    proof {
        assert forall|j: int| 0 <= j < r@.len() implies actions_view(r@)[j] == (seq![
            ActionView::ManifestMounted {
                timestamp: timestamp as int,
                user: user@,
                digest: digest@,
                repository: repository@,
            },
            ActionView::ManifestStored {
                timestamp: timestamp as int,
                user: user@,
                digest: digest@,
                location: location@,
            },
            ActionView::ManifestStat { timestamp: timestamp as int, digest: digest@, size },
        ] + actions_view(extracted@) + seq![
            ActionView::HashTagged {
                timestamp: timestamp as int,
                user: user@,
                digest: digest@,
                repository: repository@,
                tag: tag@,
            },
        ])[j] by {
            assert(actions_view(r@)[j] == r@[j]@);
            if j < 3 {
                assert(r@[j] == body[j]);
                assert(body.take(3)[j] == head[j]);
            } else if j < 3 + extracted@.len() {
                assert(r@[j] == body[j]);
                assert(body[3 + (j - 3)]@ == extracted@[j - 3]@);
                assert(actions_view(extracted@)[j - 3] == extracted@[j - 3]@);
            } else {
                assert(r@[j] == r@.last());
            }
        }
    }
    r
}

} // verus!
