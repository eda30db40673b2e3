//! The object mirror: for every object the cluster has accepted but
//! this node does not yet hold, pick a peer that has the bytes, fetch
//! them, verify their digest, and propose a `*Stored` action for this
//! node.  The downloading itself is the driver's business; everything
//! decided here — which requests a commit raises, whether a request is
//! still worth running, which URLs may serve it, and what follows a
//! finished download — is a function of plain values.
use rand::RngExt;
use vstd::prelude::*;

use crate::config::Configuration;
use crate::log::LogEntry;
use crate::paths::{dec_str, get_blob_path, get_manifest_path, shardable, spec_object_path, u64_to_string};
use crate::state::RegistryState;
use crate::types::{Digest, DigestView, RegistryAction};

verus! {

/// Mathematical value of a [`MirrorRequest`].
pub ghost enum MirrorRequestView {
    Blob { digest: DigestView },
    Manifest { digest: DigestView },
}

/// One pending job: copy the bytes of this object from a peer.
#[derive(Debug, Clone, PartialEq, Eq, Hash)]
pub enum MirrorRequest {
    Blob { digest: Digest },
    Manifest { digest: Digest },
}

impl View for MirrorRequest {
    type V = MirrorRequestView;

    open spec fn view(&self) -> MirrorRequestView {
        match *self {
            MirrorRequest::Blob { ref digest } => MirrorRequestView::Blob { digest: digest@ },
            MirrorRequest::Manifest { ref digest } => MirrorRequestView::Manifest {
                digest: digest@,
            },
        }
    }
}

/// What one mirror attempt came to.
pub enum MirrorResult {
    /// The transfer failed somewhere; run the request again later.
    Retry { request: MirrorRequest },
    /// The bytes are in place; propose this action.
    Success { request: MirrorRequest, action: RegistryAction },
    /// The request is moot (object gone, or already here).
    Nothing,
}

impl MirrorRequest {
    /// The digest the request is after.
    pub open spec fn spec_digest(&self) -> DigestView {
        match self@ {
            MirrorRequestView::Blob { digest } => digest,
            MirrorRequestView::Manifest { digest } => digest,
        }
    }

    /// The canonical path the fetched object will be renamed to.
    pub fn storage_path(&self, images_directory: &str) -> (r: String)
        requires
            match self {
                MirrorRequest::Blob { digest } => shardable(digest),
                MirrorRequest::Manifest { digest } => shardable(digest),
            },
        ensures
            r@ == (match self@ {
                MirrorRequestView::Blob { digest } => spec_object_path(
                    images_directory@,
                    "blobs"@,
                    digest.hash,
                ),
                MirrorRequestView::Manifest { digest } => spec_object_path(
                    images_directory@,
                    "manifests"@,
                    digest.hash,
                ),
            }),
    {
        match self {
            MirrorRequest::Blob { digest } => get_blob_path(images_directory, digest),
            MirrorRequest::Manifest { digest } => get_manifest_path(images_directory, digest),
        }
    }

    /// The download is in place: turn the request into the `*Stored`
    /// action this node proposes, stamped with the caller's clock.
    pub fn success(self, location: String, timestamp: i64) -> (r: MirrorResult)
        ensures
            r matches MirrorResult::Success { request, action } && request == self && action@
                == (match self@ {
                MirrorRequestView::Blob { digest } => crate::types::ActionView::BlobStored {
                    timestamp: timestamp as int,
                    user: "$internal"@,
                    digest,
                    location: location@,
                },
                MirrorRequestView::Manifest { digest } => crate::types::ActionView::ManifestStored {
                    timestamp: timestamp as int,
                    user: "$internal"@,
                    digest,
                    location: location@,
                },
            }),
    {
        let action = match &self {
            MirrorRequest::Blob { digest } => RegistryAction::BlobStored {
                timestamp,
                digest: digest.duplicate(),
                location,
                user: "$internal".to_owned(),
            },
            MirrorRequest::Manifest { digest } => RegistryAction::ManifestStored {
                timestamp,
                digest: digest.duplicate(),
                location,
                user: "$internal".to_owned(),
            },
        };
        MirrorResult::Success { request: self, action }
    }
}

/// The mirror jobs one committed run of entries raises: one request
/// per `BlobStored` or `ManifestStored` it holds.
pub open spec fn spec_tasks(entries: Seq<LogEntry>) -> Seq<MirrorRequestView>
    decreases entries.len(),
{
    if entries.len() == 0 {
        Seq::empty()
    } else {
        spec_tasks(entries.drop_last()) + (match entries.last().entry {
            RegistryAction::BlobStored { ref digest, .. } => seq![
                MirrorRequestView::Blob { digest: digest@ },
            ],
            RegistryAction::ManifestStored { ref digest, .. } => seq![
                MirrorRequestView::Manifest { digest: digest@ },
            ],
            _ => Seq::empty(),
        })
    }
}

/// A batch of entries the consensus layer reports as committed.
pub enum RaftEvent {
    Committed { start_index: u64, entries: Vec<LogEntry> },
}

/// The mirror requests one committed batch raises.
pub fn get_tasks_from_raft_event(event: RaftEvent) -> (r: Vec<MirrorRequest>)
    ensures
        match event {
            RaftEvent::Committed { start_index, entries } => r@.map(
                |i: int, t: MirrorRequest| t@,
            ) == spec_tasks(entries@),
        },
{
    let mut tasks: Vec<MirrorRequest> = Vec::new();
    match &event {
        RaftEvent::Committed { start_index, entries } => {
            let n = entries.len();
            let mut i: usize = 0;
            proof {
                assert(tasks@.map(|j: int, t: MirrorRequest| t@) =~= spec_tasks(
                    entries@.take(0),
                ));
            }
            while i < n
                invariant
                    n == entries@.len(),
                    0 <= i <= n,
                    tasks@.map(|j: int, t: MirrorRequest| t@) == spec_tasks(entries@.take(i as int)),
                decreases n - i,
            {
                let ghost pre = tasks@;
                match &entries[i].entry {
                    RegistryAction::BlobStored { digest, .. } => {
                        tasks.push(MirrorRequest::Blob { digest: digest.duplicate() });
                    },
                    RegistryAction::ManifestStored { digest, .. } => {
                        tasks.push(MirrorRequest::Manifest { digest: digest.duplicate() });
                    },
                    _ => {},
                }
                proof {
                    assert(entries@.take(i + 1).drop_last() =~= entries@.take(i as int));
                    assert(entries@.take(i + 1).last() == entries@[i as int]);
                    assert(tasks@.map(|j: int, t: MirrorRequest| t@) =~= spec_tasks(
                        entries@.take(i + 1),
                    ));
                }
                i = i + 1;
            }
            proof {
                assert(entries@.take(n as int) =~= entries@);
            }
        },
    }
    tasks
}

/// The URL a peer serves an object at.
pub open spec fn spec_mirror_url(
    address: Seq<char>,
    port: u16,
    repository: Seq<char>,
    kind: Seq<char>,
    digest: DigestView,
) -> Seq<char> {
    "http://"@ + address + ":"@ + dec_str(port as int) + "/v2/"@ + repository + "/"@ + kind + "/"@
        + digest.algo + ":"@ + digest.hash
}

fn mirror_url(
    address: &String,
    port: u16,
    repository: &crate::types::RepositoryName,
    kind: &str,
    digest: &Digest,
) -> (r: String)
    ensures
        r@ == spec_mirror_url(address@, port, repository@, kind@, digest@),
{
    let mut r = "http://".to_owned();
    r.append(address.as_str());
    r.append(":");
    r.append(u64_to_string(port as u64).as_str());
    r.append("/v2/");
    r.append(repository.name.as_str());
    r.append("/");
    r.append(kind);
    r.append("/");
    r.append(digest.algo.as_str());
    r.append(":");
    r.append(digest.hash.as_str());
    proof {
        assert(r@ =~= spec_mirror_url(address@, port, repository@, kind@, digest@));
    }
    r
}

/// What the mirror decides to do about one request.
pub enum MirrorPlan {
    /// Nothing to do: the object is gone, unreferenced, or already here.
    Skip,
    /// Fetch the object from any one of these peer URLs.
    Fetch { urls: Vec<String> },
}

/// Every URL in the list points one peer that announces the bytes at
/// one fixed repository and kind.
pub open spec fn urls_serve(
    urls: Seq<String>,
    peers: Seq<crate::config::PeerConfig>,
    locations: Set<Seq<char>>,
    repository: Seq<char>,
    kind: Seq<char>,
    digest: DigestView,
) -> bool {
    forall|j: int|
        0 <= j < urls.len() ==> exists|q: int|
            0 <= q < peers.len() && locations.contains((#[trigger] peers[q]).name@) && (
            #[trigger] urls[j])@ == spec_mirror_url(
                peers[q].registry.address@,
                peers[q].registry.port,
                repository,
                kind,
                digest,
            )
}

/// Every configured peer that announces the bytes contributes its URL
/// to the list.
pub open spec fn urls_cover(
    urls: Seq<String>,
    peers: Seq<crate::config::PeerConfig>,
    locations: Set<Seq<char>>,
    repository: Seq<char>,
    kind: Seq<char>,
    digest: DigestView,
) -> bool {
    forall|p: int|
        0 <= p < peers.len() && locations.contains((#[trigger] peers[p]).name@) ==> exists|j: int|
            0 <= j < urls.len() && (#[trigger] urls[j])@ == spec_mirror_url(
                peers[p].registry.address@,
                peers[p].registry.port,
                repository,
                kind,
                digest,
            )
}

/// The fetch plan for a request: the URLs all point peers that announce
/// the bytes, at one repository the entity is mounted in, and every
/// peer that holds the bytes is represented.
pub open spec fn plan_fetches(
    state: crate::state::StateView,
    peers: Seq<crate::config::PeerConfig>,
    request: MirrorRequestView,
    urls: Seq<String>,
) -> bool {
    match request {
        MirrorRequestView::Blob { digest } => exists|repository: Seq<char>|
            state.blobs[digest].repositories.contains(repository) && #[trigger] urls_serve(
                urls,
                peers,
                state.blobs[digest].locations,
                repository,
                "blobs"@,
                digest,
            ) && urls_cover(urls, peers, state.blobs[digest].locations, repository, "blobs"@, digest),
        MirrorRequestView::Manifest { digest } => exists|repository: Seq<char>|
            state.manifests[digest].repositories.contains(repository) && #[trigger] urls_serve(
                urls,
                peers,
                state.manifests[digest].locations,
                repository,
                "manifests"@,
                digest,
            ) && urls_cover(
                urls,
                peers,
                state.manifests[digest].locations,
                repository,
                "manifests"@,
                digest,
            ),
    }
}

/// A mirror request is moot when the entity is gone, no repository
/// references it any more, or this node already stores it.
pub open spec fn plan_skips(
    state: crate::state::StateView,
    self_id: Seq<char>,
    request: MirrorRequestView,
) -> bool {
    let (m, d) = match request {
        MirrorRequestView::Blob { digest } => (state.blobs, digest),
        MirrorRequestView::Manifest { digest } => (state.manifests, digest),
    };
    ||| !m.contains_key(d)
    ||| m[d].repositories.is_empty()
    ||| m[d].locations.contains(self_id)
}

/// Decide one mirror request: skip it, or fetch from one of the peers
/// that announce the bytes.  Every returned URL points some such peer
/// at one repository the entity is mounted in.  Replaying a request
/// after its download succeeded yields `Skip`, because this node is
/// then among the locations.
#[verifier::loop_isolation(false)]
#[verifier::rlimit(60)]
pub fn plan_transfer(state: &RegistryState, config: &Configuration, request: &MirrorRequest) -> (r:
    MirrorPlan)
    requires
        state.wf(),
    ensures
        r is Skip <==> plan_skips(state@, state.spec_id(), request@),
        r matches MirrorPlan::Fetch { urls } ==> plan_fetches(
            state@,
            config.peers@,
            request@,
            urls@,
        ),
{
    let entity = match request {
        MirrorRequest::Blob { digest } => state.get_blob_directly(digest),
        MirrorRequest::Manifest { digest } => state.get_manifest_directly(digest),
    };
    let entity = match entity {
        Some(e) => e,
        None => {
            return MirrorPlan::Skip;
        },
    };
    if entity.repositories.len() == 0 {
        proof {
            assert(crate::types::repo_set(entity.repositories@) =~= Set::<Seq<char>>::empty());
        }
        return MirrorPlan::Skip;
    }
    proof {
        assert(entity@.repositories.contains(entity.repositories@[0]@));
    }
    if crate::state::string_vec_contains(&entity.locations, state.identifier()) {
        return MirrorPlan::Skip;
    }
    let repository = &entity.repositories[0];
    let kind: &str = match request {
        MirrorRequest::Blob { .. } => "blobs",
        MirrorRequest::Manifest { .. } => "manifests",
    };
    let digest = match request {
        MirrorRequest::Blob { digest } => digest,
        MirrorRequest::Manifest { digest } => digest,
    };
    let mut urls: Vec<String> = Vec::new();
    let n = config.peers.len();
    let mut p: usize = 0;
    while p < n
        invariant
            n == config.peers@.len(),
            0 <= p <= n,
            entity@.repositories.contains(repository@),
            urls_serve(
                urls@,
                config.peers@,
                crate::types::string_set(entity.locations@),
                repository@,
                kind@,
                digest@,
            ),
            urls_cover(
                urls@,
                config.peers@.take(p as int),
                crate::types::string_set(entity.locations@),
                repository@,
                kind@,
                digest@,
            ),
        decreases n - p,
    {
        if crate::state::string_vec_contains(&entity.locations, &config.peers[p].name) {
            let ghost pre = urls@;
            let u = mirror_url(
                &config.peers[p].registry.address,
                config.peers[p].registry.port,
                repository,
                kind,
                digest,
            );
            urls.push(u);
            proof {
                assert(urls_serve(
                    urls@,
                    config.peers@,
                    crate::types::string_set(entity.locations@),
                    repository@,
                    kind@,
                    digest@,
                )) by {
                    assert forall|j: int| 0 <= j < urls@.len() implies exists|q: int|
                        0 <= q < config.peers@.len() && crate::types::string_set(
                            entity.locations@,
                        ).contains((#[trigger] config.peers@[q]).name@) && (
                        #[trigger] urls@[j])@ == spec_mirror_url(
                            config.peers@[q].registry.address@,
                            config.peers@[q].registry.port,
                            repository@,
                            kind@,
                            digest@,
                        ) by {
                        if j < pre.len() {
                            assert(urls@[j] == pre[j]);
                        } else {
                            assert(crate::types::string_set(entity.locations@).contains(
                                config.peers@[p as int].name@,
                            ));
                            assert(urls@[j]@ == spec_mirror_url(
                                config.peers@[p as int].registry.address@,
                                config.peers@[p as int].registry.port,
                                repository@,
                                kind@,
                                digest@,
                            ));
                        }
                    }
                }
                assert(urls_cover(
                    urls@,
                    config.peers@.take(p + 1),
                    crate::types::string_set(entity.locations@),
                    repository@,
                    kind@,
                    digest@,
                )) by {
                    assert forall|q: int|
                        0 <= q < config.peers@.take(p + 1).len()
                            && crate::types::string_set(entity.locations@).contains(
                            (#[trigger] config.peers@.take(p + 1)[q]).name@,
                        ) implies exists|j: int|
                        0 <= j < urls@.len() && (#[trigger] urls@[j])@ == spec_mirror_url(
                            config.peers@.take(p + 1)[q].registry.address@,
                            config.peers@.take(p + 1)[q].registry.port,
                            repository@,
                            kind@,
                            digest@,
                        ) by {
                        assert(config.peers@.take(p + 1)[q] == config.peers@[q]);
                        if q < p {
                            assert(config.peers@.take(p as int)[q] == config.peers@[q]);
                            let j = choose|j: int|
                                0 <= j < pre.len() && (#[trigger] pre[j])@ == spec_mirror_url(
                                    config.peers@.take(p as int)[q].registry.address@,
                                    config.peers@.take(p as int)[q].registry.port,
                                    repository@,
                                    kind@,
                                    digest@,
                                );
                            assert(urls@[j] == pre[j]);
                        } else {
                            assert(urls@[urls@.len() - 1]@ == spec_mirror_url(
                                config.peers@[p as int].registry.address@,
                                config.peers@[p as int].registry.port,
                                repository@,
                                kind@,
                                digest@,
                            ));
                        }
                    }
                }
            }
        } else {
            proof {
                assert(urls_cover(
                    urls@,
                    config.peers@.take(p + 1),
                    crate::types::string_set(entity.locations@),
                    repository@,
                    kind@,
                    digest@,
                )) by {
                    assert forall|q: int|
                        0 <= q < config.peers@.take(p + 1).len()
                            && crate::types::string_set(entity.locations@).contains(
                            (#[trigger] config.peers@.take(p + 1)[q]).name@,
                        ) implies exists|j: int|
                        0 <= j < urls@.len() && (#[trigger] urls@[j])@ == spec_mirror_url(
                            config.peers@.take(p + 1)[q].registry.address@,
                            config.peers@.take(p + 1)[q].registry.port,
                            repository@,
                            kind@,
                            digest@,
                        ) by {
                        assert(config.peers@.take(p + 1)[q] == config.peers@[q]);
                        if q < p {
                            assert(config.peers@.take(p as int)[q] == config.peers@[q]);
                        }
                    }
                }
            }
        }
        p = p + 1;
    }
    proof {
        assert(config.peers@.take(n as int) =~= config.peers@);
        let (m, d) = (match request@ {
            MirrorRequestView::Blob { digest } => (state@.blobs, digest),
            MirrorRequestView::Manifest { digest } => (state@.manifests, digest),
        });
        let kindv = (match request@ {
            MirrorRequestView::Blob { digest } => "blobs"@,
            MirrorRequestView::Manifest { digest } => "manifests"@,
        });
        assert(kind@ == kindv);
        assert(d == digest@);
        assert(m[d] == entity@);
        assert(m[d].repositories.contains(repository@));
        assert(m[d].locations == crate::types::string_set(entity.locations@));
        assert(urls_serve(urls@, config.peers@, m[d].locations, repository@, kindv, d));
        assert(urls_cover(urls@, config.peers@, m[d].locations, repository@, kindv, d));
    }
    let result = MirrorPlan::Fetch { urls };
    proof {
        let (m, d) = (match request@ {
            MirrorRequestView::Blob { digest } => (state@.blobs, digest),
            MirrorRequestView::Manifest { digest } => (state@.manifests, digest),
        });
        let kindv = (match request@ {
            MirrorRequestView::Blob { digest } => "blobs"@,
            MirrorRequestView::Manifest { digest } => "manifests"@,
        });
        assert(urls_serve(result->Fetch_urls@, config.peers@, m[d].locations, repository@, kindv, d));
        assert(urls_cover(result->Fetch_urls@, config.peers@, m[d].locations, repository@, kindv, d));
        assert(plan_fetches(state@, config.peers@, request@, result->Fetch_urls@)) by {
            match request@ {
                MirrorRequestView::Blob { digest: dv } => {
                    assert(state@.blobs[dv].repositories.contains(repository@) && urls_serve(
                        result->Fetch_urls@,
                        config.peers@,
                        state@.blobs[dv].locations,
                        repository@,
                        "blobs"@,
                        dv,
                    ) && urls_cover(
                        result->Fetch_urls@,
                        config.peers@,
                        state@.blobs[dv].locations,
                        repository@,
                        "blobs"@,
                        dv,
                    ));
                },
                MirrorRequestView::Manifest { digest: dv } => {
                    assert(state@.manifests[dv].repositories.contains(repository@) && urls_serve(
                        result->Fetch_urls@,
                        config.peers@,
                        state@.manifests[dv].locations,
                        repository@,
                        "manifests"@,
                        dv,
                    ) && urls_cover(
                        result->Fetch_urls@,
                        config.peers@,
                        state@.manifests[dv].locations,
                        repository@,
                        "manifests"@,
                        dv,
                    ));
                },
            }
        }
    }
    result
}

/// Replaying a mirror request after its download succeeded changes
/// nothing and proposes nothing: applying the `*Stored` action puts
/// this node among the entity's locations, and a request whose object
/// is already here is skipped.
pub proof fn lemma_replay_after_success(
    s: crate::state::StateView,
    timestamp: int,
    user: Seq<char>,
    digest: DigestView,
    self_id: Seq<char>,
)
    ensures
        plan_skips(
            crate::state::apply_action(
                s,
                crate::types::ActionView::BlobStored { timestamp, user, digest, location: self_id },
            ),
            self_id,
            MirrorRequestView::Blob { digest },
        ),
        plan_skips(
            crate::state::apply_action(
                s,
                crate::types::ActionView::ManifestStored {
                    timestamp,
                    user,
                    digest,
                    location: self_id,
                },
            ),
            self_id,
            MirrorRequestView::Manifest { digest },
        ),
{
}

/// Relies on `rand`'s uniform ranges: some index below `n`.
#[verifier::external_body]
fn random_index_below(n: usize) -> (r: usize)
    requires
        n > 0,
    ensures
        r < n,
{
    rand::rng().random_range(0..n)
}

/// Pick one of the candidate URLs at random; `None` only when there is
/// no candidate at all.
pub fn choose_url(urls: &Vec<String>) -> (r: Option<String>)
    ensures
        r is Some <==> urls@.len() > 0,
        r matches Some(u) ==> exists|j: int| 0 <= j < urls@.len() && u@ == (#[trigger] urls@[j])@,
{
    if urls.len() == 0 {
        return None;
    }
    let i = random_index_below(urls.len());
    Some(urls[i].clone())
}

/// Judge a finished download: only bytes that hash to the requested
/// digest are accepted, and acceptance turns into the `*Stored`
/// proposal; anything else sends the request back to the queue.
pub fn conclude_transfer(
    request: MirrorRequest,
    downloaded: &Digest,
    location: String,
    timestamp: i64,
) -> (r: MirrorResult)
    ensures
        downloaded@ == request.spec_digest() ==> (r matches MirrorResult::Success {
            request: rq,
            action,
        } && rq == request && action@ == (match request@ {
            MirrorRequestView::Blob { digest } => crate::types::ActionView::BlobStored {
                timestamp: timestamp as int,
                user: "$internal"@,
                digest,
                location: location@,
            },
            MirrorRequestView::Manifest { digest } => crate::types::ActionView::ManifestStored {
                timestamp: timestamp as int,
                user: "$internal"@,
                digest,
                location: location@,
            },
        })),
        downloaded@ != request.spec_digest() ==> (r matches MirrorResult::Retry { request: rq }
            && rq == request),
{
    let matches_digest = match &request {
        MirrorRequest::Blob { digest } => *digest == *downloaded,
        MirrorRequest::Manifest { digest } => *digest == *downloaded,
    };
    if matches_digest {
        request.success(location, timestamp)
    } else {
        MirrorResult::Retry { request }
    }
}

} // verus!
