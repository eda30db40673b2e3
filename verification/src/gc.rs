//! The garbage collector: a two-phase reaper for logically dead
//! objects.  Phase one (leader only) proposes unmounts for entities
//! that have sat orphaned past the minimum age; phase two (every node)
//! names the local files whose logical references are gone, so the
//! driver can delete each file and, only on success, propose the
//! matching `*Unstored` — keeping "file present only while this node is
//! among the locations" an invariant of the store.
use vstd::prelude::*;

use crate::paths::{get_blob_path, get_manifest_path, spec_object_path};
use crate::state::RegistryState;
use crate::types::{ActionView, BlobEntry, DigestView, ManifestEntry, RegistryAction};

verus! {

/// Seconds an entity must have been orphaned before the reaper acts.
pub const MINIMUM_GARBAGE_AGE: i64 = 60 * 60 * 12;

/// Has the entity sat long enough to be reaped?
pub open spec fn old_enough(created: int, now: int) -> bool {
    now - created >= MINIMUM_GARBAGE_AGE as int
}

/// The digest can shard into a storage path.
pub open spec fn pathable(d: DigestView) -> bool {
    &&& d.hash.len() >= 6
    &&& vstd::utf8::is_ascii_chars(d.hash)
}

fn check_age(created: i64, now: i64) -> (r: bool)
    ensures
        r == old_enough(created as int, now as int),
{
    let gap: i128 = now as i128 - created as i128;
    gap >= MINIMUM_GARBAGE_AGE as i128
}

/// Every action in the list unmounts, in the system's name, a
/// repository that an old-enough entry still carries.
pub open spec fn phase1_sound(
    manifests: Seq<ManifestEntry>,
    blobs: Seq<BlobEntry>,
    actions: Seq<RegistryAction>,
    now: int,
) -> bool {
    forall|j: int|
        0 <= j < actions.len() ==> match (#[trigger] actions[j])@ {
            ActionView::ManifestUnmounted { timestamp, user, digest, repository } => {
                &&& timestamp == now
                &&& user == "$system"@
                &&& exists|i: int|
                    0 <= i < manifests.len() && (#[trigger] manifests[i]).digest@ == digest
                        && manifests[i].manifest@.repositories.contains(repository)
                        && old_enough(manifests[i].manifest@.created, now)
            },
            ActionView::BlobUnmounted { timestamp, user, digest, repository } => {
                &&& timestamp == now
                &&& user == "$system"@
                &&& exists|i: int|
                    0 <= i < blobs.len() && (#[trigger] blobs[i]).digest@ == digest
                        && blobs[i].blob@.repositories.contains(repository)
                        && old_enough(blobs[i].blob@.created, now)
            },
            _ => false,
        }
}

/// Every repository still carried by one of the first `bound`
/// old-enough manifest entries has its unmount in the list.
pub open spec fn phase1_covers_manifests(
    manifests: Seq<ManifestEntry>,
    bound: int,
    actions: Seq<RegistryAction>,
    now: int,
) -> bool {
    forall|i: int, k: int|
        0 <= i < bound && old_enough(manifests[i].manifest@.created, now) && 0 <= k
            < manifests[i].manifest.repositories@.len() ==> exists|j: int|
            0 <= j < actions.len() && (#[trigger] actions[j])@ == (ActionView::ManifestUnmounted {
                timestamp: now,
                user: "$system"@,
                digest: manifests[i].digest@,
                repository: (#[trigger] manifests[i].manifest.repositories@[k])@,
            })
}

/// The blob analogue of [`phase1_covers_manifests`].
pub open spec fn phase1_covers_blobs(
    blobs: Seq<BlobEntry>,
    bound: int,
    actions: Seq<RegistryAction>,
    now: int,
) -> bool {
    forall|i: int, k: int|
        0 <= i < bound && old_enough(blobs[i].blob@.created, now) && 0 <= k
            < blobs[i].blob.repositories@.len() ==> exists|j: int|
            0 <= j < actions.len() && (#[trigger] actions[j])@ == (ActionView::BlobUnmounted {
                timestamp: now,
                user: "$system"@,
                digest: blobs[i].digest@,
                repository: (#[trigger] blobs[i].blob.repositories@[k])@,
            })
}

/// Phase one: propose, in the system's name, one unmount per repository
/// still carried by each old-enough entry — no more and no less.  (An
/// orphaned entry carries no repositories, so in steady state this
/// sweep proposes nothing; it stands in for a future pass over the
/// dependency graph.)
#[verifier::rlimit(60)]
#[verifier::loop_isolation(false)]
pub fn plan_phase1(
    manifests: &Vec<ManifestEntry>,
    blobs: &Vec<BlobEntry>,
    now: i64,
) -> (r: Vec<RegistryAction>)
    ensures
        phase1_sound(manifests@, blobs@, r@, now as int),
        phase1_covers_manifests(manifests@, manifests@.len() as int, r@, now as int),
        phase1_covers_blobs(blobs@, blobs@.len() as int, r@, now as int),
{
    let mut actions: Vec<RegistryAction> = Vec::new();
    let mut i: usize = 0;
    while i < manifests.len()
        invariant
            0 <= i <= manifests@.len(),
            phase1_sound(manifests@, blobs@, actions@, now as int),
            phase1_covers_manifests(manifests@, i as int, actions@, now as int),
        decreases manifests@.len() - i,
    {
        if check_age(manifests[i].manifest.created, now) {
            let entry = &manifests[i];
            let m = entry.manifest.repositories.len();
            let mut k: usize = 0;
            while k < m
                invariant
                    0 <= i < manifests@.len(),
                    m == manifests@[i as int].manifest.repositories@.len(),
                    entry == &manifests@[i as int],
                    old_enough(manifests@[i as int].manifest@.created, now as int),
                    0 <= k <= m,
                    phase1_sound(manifests@, blobs@, actions@, now as int),
                    phase1_covers_manifests(manifests@, i as int, actions@, now as int),
                    forall|k2: int|
                        0 <= k2 < k ==> exists|j: int|
                            0 <= j < actions@.len() && (#[trigger] actions@[j])@
                                == (ActionView::ManifestUnmounted {
                                timestamp: now as int,
                                user: "$system"@,
                                digest: manifests@[i as int].digest@,
                                repository: (#[trigger] manifests@[i as int].manifest.repositories@[k2])@,
                            }),
                decreases m - k,
            {
                let ghost pre = actions@;
                actions.push(
                    RegistryAction::ManifestUnmounted {
                        timestamp: now,
                        digest: entry.digest.duplicate(),
                        repository: entry.manifest.repositories[k].duplicate(),
                        user: "$system".to_owned(),
                    },
                );
                proof {
                    assert(crate::types::repo_set(
                        manifests@[i as int].manifest.repositories@,
                    ).contains(manifests@[i as int].manifest.repositories@[k as int]@));
                    assert(actions@[actions@.len() - 1]@ == (ActionView::ManifestUnmounted {
                        timestamp: now as int,
                        user: "$system"@,
                        digest: manifests@[i as int].digest@,
                        repository: manifests@[i as int].manifest.repositories@[k as int]@,
                    }));
                    lemma_phase1_extends(pre, actions@, manifests@, blobs@, i as int, now as int);
                    assert forall|k2: int| 0 <= k2 < k + 1 implies exists|j: int|
                        0 <= j < actions@.len() && (#[trigger] actions@[j])@
                            == (ActionView::ManifestUnmounted {
                            timestamp: now as int,
                            user: "$system"@,
                            digest: manifests@[i as int].digest@,
                            repository: (#[trigger] manifests@[i as int].manifest.repositories@[k2])@,
                        }) by {
                        if k2 < k {
                            let j = choose|j: int|
                                0 <= j < pre.len() && (#[trigger] pre[j])@
                                    == (ActionView::ManifestUnmounted {
                                    timestamp: now as int,
                                    user: "$system"@,
                                    digest: manifests@[i as int].digest@,
                                    repository: manifests@[i as int].manifest.repositories@[k2]@,
                                });
                            assert(actions@[j] == pre[j]);
                        } else {
                            assert(actions@[actions@.len() - 1]@ == (ActionView::ManifestUnmounted {
                                timestamp: now as int,
                                user: "$system"@,
                                digest: manifests@[i as int].digest@,
                                repository: manifests@[i as int].manifest.repositories@[k2]@,
                            }));
                        }
                    }
                }
                k = k + 1;
            }
        }
        proof {
            assert forall|i2: int, k2: int|
                0 <= i2 < i + 1 && old_enough(manifests@[i2].manifest@.created, now as int) && 0
                    <= k2 < manifests@[i2].manifest.repositories@.len() implies exists|j: int|
                0 <= j < actions@.len() && (#[trigger] actions@[j])@
                    == (ActionView::ManifestUnmounted {
                    timestamp: now as int,
                    user: "$system"@,
                    digest: manifests@[i2].digest@,
                    repository: (#[trigger] manifests@[i2].manifest.repositories@[k2])@,
                }) by {}
        }
        i = i + 1;
    }
    let ghost manifest_actions = actions@;
    let mut i: usize = 0;
    while i < blobs.len()
        invariant
            0 <= i <= blobs@.len(),
            phase1_sound(manifests@, blobs@, actions@, now as int),
            phase1_covers_manifests(manifests@, manifests@.len() as int, actions@, now as int),
            phase1_covers_blobs(blobs@, i as int, actions@, now as int),
            actions@.len() >= manifest_actions.len(),
            actions@.take(manifest_actions.len() as int) == manifest_actions,
        decreases blobs@.len() - i,
    {
        if check_age(blobs[i].blob.created, now) {
            let entry = &blobs[i];
            let m = entry.blob.repositories.len();
            let mut k: usize = 0;
            while k < m
                invariant
                    0 <= i < blobs@.len(),
                    m == blobs@[i as int].blob.repositories@.len(),
                    entry == &blobs@[i as int],
                    old_enough(blobs@[i as int].blob@.created, now as int),
                    0 <= k <= m,
                    phase1_sound(manifests@, blobs@, actions@, now as int),
                    phase1_covers_manifests(
                        manifests@,
                        manifests@.len() as int,
                        actions@,
                        now as int,
                    ),
                    phase1_covers_blobs(blobs@, i as int, actions@, now as int),
                    actions@.len() >= manifest_actions.len(),
                    actions@.take(manifest_actions.len() as int) == manifest_actions,
                    forall|k2: int|
                        0 <= k2 < k ==> exists|j: int|
                            0 <= j < actions@.len() && (#[trigger] actions@[j])@
                                == (ActionView::BlobUnmounted {
                                timestamp: now as int,
                                user: "$system"@,
                                digest: blobs@[i as int].digest@,
                                repository: (#[trigger] blobs@[i as int].blob.repositories@[k2])@,
                            }),
                decreases m - k,
            {
                let ghost pre = actions@;
                actions.push(
                    RegistryAction::BlobUnmounted {
                        timestamp: now,
                        digest: entry.digest.duplicate(),
                        repository: entry.blob.repositories[k].duplicate(),
                        user: "$system".to_owned(),
                    },
                );
                proof {
                    assert(crate::types::repo_set(blobs@[i as int].blob.repositories@).contains(
                        blobs@[i as int].blob.repositories@[k as int]@,
                    ));
                    assert(actions@[actions@.len() - 1]@ == (ActionView::BlobUnmounted {
                        timestamp: now as int,
                        user: "$system"@,
                        digest: blobs@[i as int].digest@,
                        repository: blobs@[i as int].blob.repositories@[k as int]@,
                    }));
                    assert(actions@.take(manifest_actions.len() as int) =~= pre.take(
                        manifest_actions.len() as int,
                    ));
                    lemma_phase1_extends(pre, actions@, manifests@, blobs@, 0, now as int);
                    lemma_phase1_blob_extends(pre, actions@, blobs@, i as int, now as int);
                    assert forall|k2: int| 0 <= k2 < k + 1 implies exists|j: int|
                        0 <= j < actions@.len() && (#[trigger] actions@[j])@
                            == (ActionView::BlobUnmounted {
                            timestamp: now as int,
                            user: "$system"@,
                            digest: blobs@[i as int].digest@,
                            repository: (#[trigger] blobs@[i as int].blob.repositories@[k2])@,
                        }) by {
                        if k2 < k {
                            let j = choose|j: int|
                                0 <= j < pre.len() && (#[trigger] pre[j])@
                                    == (ActionView::BlobUnmounted {
                                    timestamp: now as int,
                                    user: "$system"@,
                                    digest: blobs@[i as int].digest@,
                                    repository: blobs@[i as int].blob.repositories@[k2]@,
                                });
                            assert(actions@[j] == pre[j]);
                        } else {
                            assert(actions@[actions@.len() - 1]@ == (ActionView::BlobUnmounted {
                                timestamp: now as int,
                                user: "$system"@,
                                digest: blobs@[i as int].digest@,
                                repository: blobs@[i as int].blob.repositories@[k2]@,
                            }));
                        }
                    }
                }
                k = k + 1;
            }
        }
        proof {
            assert forall|i2: int, k2: int|
                0 <= i2 < i + 1 && old_enough(blobs@[i2].blob@.created, now as int) && 0 <= k2
                    < blobs@[i2].blob.repositories@.len() implies exists|j: int|
                0 <= j < actions@.len() && (#[trigger] actions@[j])@ == (ActionView::BlobUnmounted {
                    timestamp: now as int,
                    user: "$system"@,
                    digest: blobs@[i2].digest@,
                    repository: (#[trigger] blobs@[i2].blob.repositories@[k2])@,
                }) by {}
        }
        i = i + 1;
    }
    actions
}

/// Coverage facts about earlier manifest entries survive appending more
/// actions.
proof fn lemma_phase1_extends(
    pre: Seq<RegistryAction>,
    post: Seq<RegistryAction>,
    manifests: Seq<ManifestEntry>,
    blobs: Seq<BlobEntry>,
    bound: int,
    now: int,
)
    requires
        pre.len() <= post.len(),
        forall|j: int| 0 <= j < pre.len() ==> post[j] == pre[j],
        phase1_covers_manifests(manifests, bound, pre, now),
    ensures
        phase1_covers_manifests(manifests, bound, post, now),
{
    assert forall|i: int, k: int|
        0 <= i < bound && old_enough(manifests[i].manifest@.created, now) && 0 <= k
            < manifests[i].manifest.repositories@.len() implies exists|j: int|
        0 <= j < post.len() && (#[trigger] post[j])@ == (ActionView::ManifestUnmounted {
            timestamp: now,
            user: "$system"@,
            digest: manifests[i].digest@,
            repository: (#[trigger] manifests[i].manifest.repositories@[k])@,
        }) by {
        let j = choose|j: int|
            0 <= j < pre.len() && (#[trigger] pre[j])@ == (ActionView::ManifestUnmounted {
                timestamp: now,
                user: "$system"@,
                digest: manifests[i].digest@,
                repository: manifests[i].manifest.repositories@[k]@,
            });
        assert(post[j] == pre[j]);
    }
}

/// Coverage facts about earlier blob entries survive appending more
/// actions.
proof fn lemma_phase1_blob_extends(
    pre: Seq<RegistryAction>,
    post: Seq<RegistryAction>,
    blobs: Seq<BlobEntry>,
    bound: int,
    now: int,
)
    requires
        pre.len() <= post.len(),
        forall|j: int| 0 <= j < pre.len() ==> post[j] == pre[j],
        phase1_covers_blobs(blobs, bound, pre, now),
    ensures
        phase1_covers_blobs(blobs, bound, post, now),
{
    assert forall|i: int, k: int|
        0 <= i < bound && old_enough(blobs[i].blob@.created, now) && 0 <= k
            < blobs[i].blob.repositories@.len() implies exists|j: int|
        0 <= j < post.len() && (#[trigger] post[j])@ == (ActionView::BlobUnmounted {
            timestamp: now,
            user: "$system"@,
            digest: blobs[i].digest@,
            repository: (#[trigger] blobs[i].blob.repositories@[k])@,
        }) by {
        let j = choose|j: int|
            0 <= j < pre.len() && (#[trigger] pre[j])@ == (ActionView::BlobUnmounted {
                timestamp: now,
                user: "$system"@,
                digest: blobs[i].digest@,
                repository: blobs[i].blob.repositories@[k]@,
            });
        assert(post[j] == pre[j]);
    }
}

/// One item of phase-two work: delete the file at `path`, and only if
/// the deletion succeeded propose `action`.
pub struct GcWork {
    pub path: String,
    pub action: RegistryAction,
}

/// An entity is phase-two work when it is orphaned, this node stores
/// it, it has sat long enough, and its digest names a storage path.
pub open spec fn reapable(e: crate::types::EntityView, d: DigestView, id: Seq<char>, now: int) -> bool {
    &&& e.repositories.is_empty()
    &&& e.locations.contains(id)
    &&& old_enough(e.created, now)
    &&& pathable(d)
}

/// Every work item this sweep returns unstores one reapable blob or
/// manifest of this node, and every reapable entity is in the list.
pub open spec fn phase2_sound(
    state: crate::state::StateView,
    id: Seq<char>,
    storage: Seq<char>,
    now: int,
    work: Seq<GcWork>,
) -> bool {
    forall|j: int|
        0 <= j < work.len() ==> match (#[trigger] work[j]).action@ {
            ActionView::BlobUnstored { timestamp, user, digest, location } => {
                &&& timestamp == now
                &&& user == "$system"@
                &&& location == id
                &&& state.blobs.contains_key(digest)
                &&& reapable(state.blobs[digest], digest, id, now)
                &&& work[j].path@ == spec_object_path(storage, "blobs"@, digest.hash)
            },
            ActionView::ManifestUnstored { timestamp, user, digest, location } => {
                &&& timestamp == now
                &&& user == "$system"@
                &&& location == id
                &&& state.manifests.contains_key(digest)
                &&& reapable(state.manifests[digest], digest, id, now)
                &&& work[j].path@ == spec_object_path(storage, "manifests"@, digest.hash)
            },
            _ => false,
        }
}

/// Every reapable blob has a work item.
pub open spec fn phase2_complete_blobs(
    state: crate::state::StateView,
    id: Seq<char>,
    now: int,
    work: Seq<GcWork>,
) -> bool {
    forall|d: DigestView|
        state.blobs.contains_key(d) && #[trigger] reapable(state.blobs[d], d, id, now)
            ==> exists|j: int|
            0 <= j < work.len() && ((#[trigger] work[j]).action@ matches
                ActionView::BlobUnstored { digest, .. } && digest == d)
}

/// Every reapable manifest has a work item.
pub open spec fn phase2_complete_manifests(
    state: crate::state::StateView,
    id: Seq<char>,
    now: int,
    work: Seq<GcWork>,
) -> bool {
    forall|d: DigestView|
        state.manifests.contains_key(d) && #[trigger] reapable(state.manifests[d], d, id, now)
            ==> exists|j: int|
            0 <= j < work.len() && ((#[trigger] work[j]).action@ matches
                ActionView::ManifestUnstored { digest, .. } && digest == d)
}

/// Phase two: name every local file whose logical references are gone,
/// with the `*Unstored` to propose once the file is gone too.
#[verifier::rlimit(60)]
#[verifier::loop_isolation(false)]
pub fn plan_phase2(state: &RegistryState, storage: &str, now: i64) -> (r: Vec<GcWork>)
    requires
        state.wf(),
    ensures
        phase2_sound(state@, state.spec_id(), storage@, now as int, r@),
        phase2_complete_blobs(state@, state.spec_id(), now as int, r@),
        phase2_complete_manifests(state@, state.spec_id(), now as int, r@),
{
    let mut work: Vec<GcWork> = Vec::new();
    let orphaned_blobs = state.get_orphaned_blobs();
    let mut i: usize = 0;
    while i < orphaned_blobs.len()
        invariant
            0 <= i <= orphaned_blobs@.len(),
            phase2_sound(state@, state.spec_id(), storage@, now as int, work@),
            forall|k: int|
                0 <= k < i && reapable(
                    (#[trigger] orphaned_blobs@[k]).blob@,
                    orphaned_blobs@[k].digest@,
                    state.spec_id(),
                    now as int,
                ) ==> exists|j: int|
                    0 <= j < work@.len() && ((#[trigger] work@[j]).action@ matches
                        ActionView::BlobUnstored { digest, .. } && digest
                        == orphaned_blobs@[k].digest@),
            forall|j: int|
                0 <= j < work@.len() ==> (#[trigger] work@[j]).action@ is BlobUnstored,
        decreases orphaned_blobs@.len() - i,
    {
        let entry = &orphaned_blobs[i];
        let stored_here = crate::state::string_vec_contains(
            &entry.blob.locations,
            state.identifier(),
        );
        let aged = check_age(entry.blob.created, now);
        let wide = entry.digest.hash.as_str().unicode_len() >= 6 && entry.digest.hash.is_ascii();
        if stored_here && aged && wide {
            let ghost pre = work@;
            work.push(
                GcWork {
                    path: get_blob_path(storage, &entry.digest),
                    action: RegistryAction::BlobUnstored {
                        timestamp: now,
                        digest: entry.digest.duplicate(),
                        location: state.identifier().clone(),
                        user: "$system".to_owned(),
                    },
                },
            );
            proof {
                assert(reapable(
                    state@.blobs[entry.digest@],
                    entry.digest@,
                    state.spec_id(),
                    now as int,
                ));
                assert forall|k: int|
                    0 <= k < i + 1 && reapable(
                        (#[trigger] orphaned_blobs@[k]).blob@,
                        orphaned_blobs@[k].digest@,
                        state.spec_id(),
                        now as int,
                    ) implies exists|j: int|
                    0 <= j < work@.len() && ((#[trigger] work@[j]).action@ matches
                        ActionView::BlobUnstored { digest, .. } && digest
                        == orphaned_blobs@[k].digest@) by {
                    if k < i {
                        let j = choose|j: int|
                            0 <= j < pre.len() && ((#[trigger] pre[j]).action@ matches
                                ActionView::BlobUnstored { digest, .. } && digest
                                == orphaned_blobs@[k].digest@);
                        assert(work@[j] == pre[j]);
                    } else {
                        assert(work@[work@.len() - 1].action@ matches ActionView::BlobUnstored {
                            digest,
                            ..
                        } && digest == orphaned_blobs@[k].digest@);
                    }
                }
            }
        } else {
            proof {
                if reapable(entry.blob@, entry.digest@, state.spec_id(), now as int) {
                    assert(stored_here && aged);
                    assert(entry.digest.hash@.len() >= 6);
                    assert(false);
                }
            }
        }
        i = i + 1;
    }
    proof {
        assert forall|d: DigestView|
            state@.blobs.contains_key(d) && #[trigger] reapable(
                state@.blobs[d],
                d,
                state.spec_id(),
                now as int,
            ) implies exists|j: int|
            0 <= j < work@.len() && ((#[trigger] work@[j]).action@ matches
                ActionView::BlobUnstored { digest, .. } && digest == d) by {
            let k = choose|k: int|
                0 <= k < orphaned_blobs@.len() && (#[trigger] orphaned_blobs@[k]).digest@ == d;
            assert(orphaned_blobs@[k].blob@ == state@.blobs[d]);
        }
    }
    let ghost blob_work = work@;
    let orphaned_manifests = state.get_orphaned_manifests();
    let mut i: usize = 0;
    while i < orphaned_manifests.len()
        invariant
            0 <= i <= orphaned_manifests@.len(),
            phase2_sound(state@, state.spec_id(), storage@, now as int, work@),
            work@.len() >= blob_work.len(),
            work@.take(blob_work.len() as int) == blob_work,
            forall|j: int|
                blob_work.len() <= j < work@.len() ==> (#[trigger] work@[j]).action@ is ManifestUnstored,
            forall|k: int|
                0 <= k < i && reapable(
                    (#[trigger] orphaned_manifests@[k]).manifest@,
                    orphaned_manifests@[k].digest@,
                    state.spec_id(),
                    now as int,
                ) ==> exists|j: int|
                    0 <= j < work@.len() && ((#[trigger] work@[j]).action@ matches
                        ActionView::ManifestUnstored { digest, .. } && digest
                        == orphaned_manifests@[k].digest@),
        decreases orphaned_manifests@.len() - i,
    {
        let entry = &orphaned_manifests[i];
        let stored_here = crate::state::string_vec_contains(
            &entry.manifest.locations,
            state.identifier(),
        );
        let aged = check_age(entry.manifest.created, now);
        let wide = entry.digest.hash.as_str().unicode_len() >= 6 && entry.digest.hash.is_ascii();
        if stored_here && aged && wide {
            let ghost pre = work@;
            work.push(
                GcWork {
                    path: get_manifest_path(storage, &entry.digest),
                    action: RegistryAction::ManifestUnstored {
                        timestamp: now,
                        digest: entry.digest.duplicate(),
                        location: state.identifier().clone(),
                        user: "$system".to_owned(),
                    },
                },
            );
            proof {
                assert(work@.take(blob_work.len() as int) =~= pre.take(blob_work.len() as int));
                assert(reapable(
                    state@.manifests[entry.digest@],
                    entry.digest@,
                    state.spec_id(),
                    now as int,
                ));
                assert forall|k: int|
                    0 <= k < i + 1 && reapable(
                        (#[trigger] orphaned_manifests@[k]).manifest@,
                        orphaned_manifests@[k].digest@,
                        state.spec_id(),
                        now as int,
                    ) implies exists|j: int|
                    0 <= j < work@.len() && ((#[trigger] work@[j]).action@ matches
                        ActionView::ManifestUnstored { digest, .. } && digest
                        == orphaned_manifests@[k].digest@) by {
                    if k < i {
                        let j = choose|j: int|
                            0 <= j < pre.len() && ((#[trigger] pre[j]).action@ matches
                                ActionView::ManifestUnstored { digest, .. } && digest
                                == orphaned_manifests@[k].digest@);
                        assert(work@[j] == pre[j]);
                    } else {
                        assert(work@[work@.len() - 1].action@ matches ActionView::ManifestUnstored {
                            digest,
                            ..
                        } && digest == orphaned_manifests@[k].digest@);
                    }
                }
            }
        } else {
            proof {
                if reapable(entry.manifest@, entry.digest@, state.spec_id(), now as int) {
                    assert(stored_here && aged);
                    assert(entry.digest.hash@.len() >= 6);
                    assert(false);
                }
            }
        }
        i = i + 1;
    }
    proof {
        assert forall|d: DigestView|
            state@.manifests.contains_key(d) && #[trigger] reapable(
                state@.manifests[d],
                d,
                state.spec_id(),
                now as int,
            ) implies exists|j: int|
            0 <= j < work@.len() && ((#[trigger] work@[j]).action@ matches
                ActionView::ManifestUnstored { digest, .. } && digest == d) by {
            let k = choose|k: int|
                0 <= k < orphaned_manifests@.len() && (#[trigger] orphaned_manifests@[k]).digest@
                    == d;
            assert(orphaned_manifests@[k].manifest@ == state@.manifests[d]);
        }
        assert forall|d: DigestView|
            state@.blobs.contains_key(d) && #[trigger] reapable(
                state@.blobs[d],
                d,
                state.spec_id(),
                now as int,
            ) implies exists|j: int|
            0 <= j < work@.len() && ((#[trigger] work@[j]).action@ matches
                ActionView::BlobUnstored { digest, .. } && digest == d) by {
            let j = choose|j: int|
                0 <= j < blob_work.len() && ((#[trigger] blob_work[j]).action@ matches
                    ActionView::BlobUnstored { digest, .. } && digest == d);
            assert(work@[j] == blob_work[j]);
        }
    }
    work
}

/// Applying the `*Unstored` a work item carries removes this node from
/// the entity's locations — or removes the entity outright, when the
/// location set empties too.  Either way the graph stops claiming the
/// file this node just deleted.
pub proof fn lemma_unstored_clears_location(
    s: crate::state::StateView,
    timestamp: int,
    user: Seq<char>,
    digest: DigestView,
    location: Seq<char>,
)
    ensures
        ({
            let s1 = crate::state::apply_action(
                s,
                ActionView::BlobUnstored { timestamp, user, digest, location },
            );
            s1.blobs.contains_key(digest) ==> !s1.blobs[digest].locations.contains(location)
        }),
        ({
            let s1 = crate::state::apply_action(
                s,
                ActionView::ManifestUnstored { timestamp, user, digest, location },
            );
            s1.manifests.contains_key(digest) ==> !s1.manifests[digest].locations.contains(
                location,
            )
        }),
{
}

} // verus!
