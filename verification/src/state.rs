//! The registry state machine: the deterministic projection of the
//! committed action log into an in-memory graph of blobs, manifests and
//! tags.  Applying the same sequence of actions from the empty state
//! always produces the same graph; every timestamp recorded here comes
//! from the action itself, never from a local clock.
use vstd::prelude::*;

use crate::types::{
    ActionView, Blob, BlobEntry, Digest, DigestView, Entity, EntityView, Manifest, ManifestEntry,
    RegistryAction, RepositoryName, digests_view, duplicate_digests, repo_set, string_set,
};

verus! {

/// Key of the tag index: one repository and one tag string.
#[verifier::ext_equal]
pub ghost struct TagKey {
    pub repository: Seq<char>,
    pub tag: Seq<char>,
}

/// Mathematical value of the whole graph.
#[verifier::ext_equal]
pub ghost struct StateView {
    pub blobs: Map<DigestView, EntityView>,
    pub manifests: Map<DigestView, EntityView>,
    pub tags: Map<TagKey, DigestView>,
}

/// Map denoted by an association list of digest-keyed entities; a later
/// pair with the same key shadows an earlier one.
pub open spec fn store_map(s: Seq<(Digest, Entity)>) -> Map<DigestView, EntityView>
    decreases s.len(),
{
    if s.len() == 0 {
        Map::empty()
    } else {
        store_map(s.drop_last()).insert(s.last().0@, s.last().1@)
    }
}

/// No two pairs share a key.
pub open spec fn store_keys_unique(s: Seq<(Digest, Entity)>) -> bool {
    forall|i: int, j: int| 0 <= i < j < s.len() ==> s[i].0@ != s[j].0@
}

proof fn lemma_store_contains(s: Seq<(Digest, Entity)>, k: DigestView)
    ensures
        store_map(s).contains_key(k) <==> exists|i: int| 0 <= i < s.len() && s[i].0@ == k,
    decreases s.len(),
{
    if s.len() > 0 {
        lemma_store_contains(s.drop_last(), k);
        if store_map(s).contains_key(k) {
            if s.last().0@ != k {
                let i = choose|i: int| 0 <= i < s.drop_last().len() && s.drop_last()[i].0@ == k;
                assert(s[i].0@ == k);
            }
        }
        if exists|i: int| 0 <= i < s.len() && s[i].0@ == k {
            let i = choose|i: int| 0 <= i < s.len() && s[i].0@ == k;
            if i < s.len() - 1 {
                assert(s.drop_last()[i].0@ == k);
            }
        }
    }
}

proof fn lemma_store_index(s: Seq<(Digest, Entity)>, i: int)
    requires
        store_keys_unique(s),
        0 <= i < s.len(),
    ensures
        store_map(s).contains_key(s[i].0@),
        store_map(s)[s[i].0@] == s[i].1@,
    decreases s.len(),
{
    lemma_store_contains(s, s[i].0@);
    if i == s.len() - 1 {
    } else {
        assert(store_keys_unique(s.drop_last()));
        assert(s.drop_last()[i] == s[i]);
        lemma_store_index(s.drop_last(), i);
        assert(s[i].0@ != s.last().0@);
    }
}

proof fn lemma_store_remove(s: Seq<(Digest, Entity)>, i: int)
    requires
        store_keys_unique(s),
        0 <= i < s.len(),
    ensures
        store_keys_unique(s.remove(i)),
        store_map(s.remove(i)) =~= store_map(s).remove(s[i].0@),
    decreases s.len(),
{
    let r = s.remove(i);
    assert forall|a: int, b: int| 0 <= a < b < r.len() implies r[a].0@ != r[b].0@ by {
        let a0 = if a < i { a } else { a + 1 };
        let b0 = if b < i { b } else { b + 1 };
        assert(r[a] == s[a0] && r[b] == s[b0]);
    }
    if i == s.len() - 1 {
        assert(s.remove(i) =~= s.drop_last());
        lemma_store_contains(s.drop_last(), s[i].0@);
        assert(!store_map(s.drop_last()).contains_key(s[i].0@));
        assert(store_map(s.drop_last()).remove(s[i].0@) =~= store_map(s.drop_last()));
    } else {
        lemma_store_remove(s.drop_last(), i);
        assert(s.remove(i).drop_last() =~= s.drop_last().remove(i));
        assert(s.remove(i).last() == s.last());
        assert(store_map(s.remove(i)) == store_map(s.drop_last().remove(i)).insert(
            s.last().0@,
            s.last().1@,
        ));
        assert(s[i].0@ != s.last().0@);
    }
}

/// A pushed pair denotes insertion into the map.
proof fn lemma_store_push(s: Seq<(Digest, Entity)>, p: (Digest, Entity))
    requires
        store_keys_unique(s),
        !store_map(s).contains_key(p.0@),
    ensures
        store_keys_unique(s.push(p)),
        store_map(s.push(p)) == store_map(s).insert(p.0@, p.1@),
{
    lemma_store_contains(s, p.0@);
    assert(s.push(p).drop_last() =~= s);
    assert forall|a: int, b: int| 0 <= a < b < s.push(p).len() implies s.push(p)[a].0@ != s.push(
        p,
    )[b].0@ by {
        if b == s.len() {
            assert(s.push(p)[a] == s[a]);
        }
    }
}

/// Map denoted by the tag association list.
pub open spec fn tag_map(s: Seq<(RepositoryName, String, Digest)>) -> Map<TagKey, DigestView>
    decreases s.len(),
{
    if s.len() == 0 {
        Map::empty()
    } else {
        tag_map(s.drop_last()).insert(
            TagKey { repository: s.last().0@, tag: s.last().1@ },
            s.last().2@,
        )
    }
}

/// No two tag records share a key.
pub open spec fn tag_keys_unique(s: Seq<(RepositoryName, String, Digest)>) -> bool {
    forall|i: int, j: int|
        0 <= i < j < s.len() ==> !(s[i].0@ == s[j].0@ && s[i].1@ == s[j].1@)
}

proof fn lemma_tag_contains(s: Seq<(RepositoryName, String, Digest)>, k: TagKey)
    ensures
        tag_map(s).contains_key(k) <==> exists|i: int|
            0 <= i < s.len() && s[i].0@ == k.repository && s[i].1@ == k.tag,
    decreases s.len(),
{
    if s.len() > 0 {
        lemma_tag_contains(s.drop_last(), k);
        if tag_map(s).contains_key(k) {
            if !(s.last().0@ == k.repository && s.last().1@ == k.tag) {
                let i = choose|i: int|
                    0 <= i < s.drop_last().len() && s.drop_last()[i].0@ == k.repository
                        && s.drop_last()[i].1@ == k.tag;
                assert(s[i].0@ == k.repository && s[i].1@ == k.tag);
            }
        }
        if exists|i: int| 0 <= i < s.len() && s[i].0@ == k.repository && s[i].1@ == k.tag {
            let i = choose|i: int|
                0 <= i < s.len() && s[i].0@ == k.repository && s[i].1@ == k.tag;
            if i < s.len() - 1 {
                assert(s.drop_last()[i].0@ == k.repository && s.drop_last()[i].1@ == k.tag);
            } else {
                assert(TagKey { repository: s.last().0@, tag: s.last().1@ } =~= k);
            }
        }
    }
}

proof fn lemma_tag_index(s: Seq<(RepositoryName, String, Digest)>, i: int)
    requires
        tag_keys_unique(s),
        0 <= i < s.len(),
    ensures
        tag_map(s).contains_key(TagKey { repository: s[i].0@, tag: s[i].1@ }),
        tag_map(s)[TagKey { repository: s[i].0@, tag: s[i].1@ }] == s[i].2@,
    decreases s.len(),
{
    let k = TagKey { repository: s[i].0@, tag: s[i].1@ };
    lemma_tag_contains(s, k);
    if i == s.len() - 1 {
        assert(TagKey { repository: s.last().0@, tag: s.last().1@ } =~= k);
    } else {
        assert(tag_keys_unique(s.drop_last()));
        assert(s.drop_last()[i] == s[i]);
        lemma_tag_index(s.drop_last(), i);
        assert(!(s[i].0@ == s.last().0@ && s[i].1@ == s.last().1@));
        assert(TagKey { repository: s.last().0@, tag: s.last().1@ } != k);
    }
}

proof fn lemma_tag_remove(s: Seq<(RepositoryName, String, Digest)>, i: int)
    requires
        tag_keys_unique(s),
        0 <= i < s.len(),
    ensures
        tag_keys_unique(s.remove(i)),
        tag_map(s.remove(i)) =~= tag_map(s).remove(TagKey { repository: s[i].0@, tag: s[i].1@ }),
    decreases s.len(),
{
    let k = TagKey { repository: s[i].0@, tag: s[i].1@ };
    let r = s.remove(i);
    assert forall|a: int, b: int|
        0 <= a < b < r.len() implies !(r[a].0@ == r[b].0@ && r[a].1@ == r[b].1@) by {
        let a0 = if a < i { a } else { a + 1 };
        let b0 = if b < i { b } else { b + 1 };
        assert(r[a] == s[a0] && r[b] == s[b0]);
    }
    if i == s.len() - 1 {
        assert(s.remove(i) =~= s.drop_last());
        lemma_tag_contains(s.drop_last(), k);
        assert(!tag_map(s.drop_last()).contains_key(k));
        assert(tag_map(s.drop_last()).remove(k) =~= tag_map(s.drop_last()));
    } else {
        lemma_tag_remove(s.drop_last(), i);
        assert(s.remove(i).drop_last() =~= s.drop_last().remove(i));
        assert(s.remove(i).last() == s.last());
        assert(!(s[i].0@ == s.last().0@ && s[i].1@ == s.last().1@));
        assert(TagKey { repository: s.last().0@, tag: s.last().1@ } != k);
    }
}

proof fn lemma_tag_push(s: Seq<(RepositoryName, String, Digest)>, p: (RepositoryName, String, Digest))
    requires
        tag_keys_unique(s),
        !tag_map(s).contains_key(TagKey { repository: p.0@, tag: p.1@ }),
    ensures
        tag_keys_unique(s.push(p)),
        tag_map(s.push(p)) == tag_map(s).insert(TagKey { repository: p.0@, tag: p.1@ }, p.2@),
{
    lemma_tag_contains(s, TagKey { repository: p.0@, tag: p.1@ });
    assert(s.push(p).drop_last() =~= s);
    assert forall|a: int, b: int|
        0 <= a < b < s.push(p).len() implies !(s.push(p)[a].0@ == s.push(p)[b].0@ && s.push(
        p,
    )[a].1@ == s.push(p)[b].1@) by {
        if b == s.len() {
            assert(s.push(p)[a] == s[a]);
        }
    }
}

/// The entity first recorded at time `t`: no metadata yet, an empty
/// dependency list, and no members.
pub open spec fn fresh_entity(t: int) -> EntityView {
    EntityView {
        created: t,
        updated: t,
        content_type: None,
        size: None,
        dependencies: Some(Seq::empty()),
        locations: Set::empty(),
        repositories: Set::empty(),
    }
}

/// The entity an insert-or-fetch finds or creates at time `t`.
pub open spec fn found_or_fresh(m: Map<DigestView, EntityView>, d: DigestView, t: int) -> EntityView {
    if m.contains_key(d) {
        m[d]
    } else {
        fresh_entity(t)
    }
}

/// An entity stays in the graph only while something references it: a
/// repository that mounts it or a node that stores it.
pub open spec fn keeps_entity(e: EntityView) -> bool {
    !(e.repositories.is_empty() && e.locations.is_empty())
}

/// Remove one member from one of the entity's sets at time `t`; when
/// both sets become empty the entity leaves the graph.  A removal on an
/// absent digest is dropped.
pub open spec fn apply_removal(
    m: Map<DigestView, EntityView>,
    d: DigestView,
    e: EntityView,
) -> Map<DigestView, EntityView> {
    if keeps_entity(e) {
        m.insert(d, e)
    } else {
        m.remove(d)
    }
}

/// One action applied to one entity map (used twice: blobs and
/// manifests).
pub open spec fn apply_mounted(
    m: Map<DigestView, EntityView>,
    d: DigestView,
    r: Seq<char>,
    t: int,
) -> Map<DigestView, EntityView> {
    m.insert(
        d,
        EntityView {
            updated: t,
            repositories: found_or_fresh(m, d, t).repositories.insert(r),
            ..found_or_fresh(m, d, t)
        },
    )
}

pub open spec fn apply_unmounted(
    m: Map<DigestView, EntityView>,
    d: DigestView,
    r: Seq<char>,
    t: int,
) -> Map<DigestView, EntityView> {
    if m.contains_key(d) {
        apply_removal(
            m,
            d,
            EntityView { updated: t, repositories: m[d].repositories.remove(r), ..m[d] },
        )
    } else {
        m
    }
}

pub open spec fn apply_stored(
    m: Map<DigestView, EntityView>,
    d: DigestView,
    l: Seq<char>,
    t: int,
) -> Map<DigestView, EntityView> {
    m.insert(
        d,
        EntityView {
            updated: t,
            locations: found_or_fresh(m, d, t).locations.insert(l),
            ..found_or_fresh(m, d, t)
        },
    )
}

pub open spec fn apply_unstored(
    m: Map<DigestView, EntityView>,
    d: DigestView,
    l: Seq<char>,
    t: int,
) -> Map<DigestView, EntityView> {
    if m.contains_key(d) {
        apply_removal(m, d, EntityView { updated: t, locations: m[d].locations.remove(l), ..m[d] })
    } else {
        m
    }
}

pub open spec fn apply_stat(
    m: Map<DigestView, EntityView>,
    d: DigestView,
    size: u64,
    t: int,
) -> Map<DigestView, EntityView> {
    if m.contains_key(d) {
        m.insert(d, EntityView { updated: t, size: Some(size), ..m[d] })
    } else {
        m
    }
}

pub open spec fn apply_info(
    m: Map<DigestView, EntityView>,
    d: DigestView,
    deps: Seq<DigestView>,
    ct: Seq<char>,
    t: int,
) -> Map<DigestView, EntityView> {
    if m.contains_key(d) {
        m.insert(
            d,
            EntityView { updated: t, dependencies: Some(deps), content_type: Some(ct), ..m[d] },
        )
    } else {
        m
    }
}

/// One committed action applied to the graph.  This function is the
/// contract of [`RegistryState::dispatch_actions`]: the graph after a
/// batch is the fold of this function over the batch.
pub open spec fn apply_action(s: StateView, a: ActionView) -> StateView {
    match a {
        ActionView::Empty => s,
        ActionView::BlobMounted { timestamp, digest, repository, .. } => StateView {
            blobs: apply_mounted(s.blobs, digest, repository, timestamp),
            ..s
        },
        ActionView::BlobUnmounted { timestamp, digest, repository, .. } => StateView {
            blobs: apply_unmounted(s.blobs, digest, repository, timestamp),
            ..s
        },
        ActionView::BlobStored { timestamp, digest, location, .. } => StateView {
            blobs: apply_stored(s.blobs, digest, location, timestamp),
            ..s
        },
        ActionView::BlobUnstored { timestamp, digest, location, .. } => StateView {
            blobs: apply_unstored(s.blobs, digest, location, timestamp),
            ..s
        },
        ActionView::BlobStat { timestamp, digest, size } => StateView {
            blobs: apply_stat(s.blobs, digest, size, timestamp),
            ..s
        },
        ActionView::BlobInfo { timestamp, digest, dependencies, content_type } => StateView {
            blobs: apply_info(s.blobs, digest, dependencies, content_type, timestamp),
            ..s
        },
        ActionView::ManifestMounted { timestamp, digest, repository, .. } => StateView {
            manifests: apply_mounted(s.manifests, digest, repository, timestamp),
            ..s
        },
        ActionView::ManifestUnmounted { timestamp, digest, repository, .. } => StateView {
            manifests: apply_unmounted(s.manifests, digest, repository, timestamp),
            ..s
        },
        ActionView::ManifestStored { timestamp, digest, location, .. } => StateView {
            manifests: apply_stored(s.manifests, digest, location, timestamp),
            ..s
        },
        ActionView::ManifestUnstored { timestamp, digest, location, .. } => StateView {
            manifests: apply_unstored(s.manifests, digest, location, timestamp),
            ..s
        },
        ActionView::ManifestStat { timestamp, digest, size } => StateView {
            manifests: apply_stat(s.manifests, digest, size, timestamp),
            ..s
        },
        ActionView::ManifestInfo { timestamp, digest, dependencies, content_type } => StateView {
            manifests: apply_info(s.manifests, digest, dependencies, content_type, timestamp),
            ..s
        },
        ActionView::HashTagged { digest, repository, tag, .. } => StateView {
            tags: s.tags.insert(TagKey { repository: repository, tag: tag }, digest),
            ..s
        },
    }
}

/// A batch of actions applied in order.
pub open spec fn apply_actions(s: StateView, actions: Seq<ActionView>) -> StateView
    decreases actions.len(),
{
    if actions.len() == 0 {
        s
    } else {
        apply_action(apply_actions(s, actions.drop_last()), actions.last())
    }
}

/// No two strings in the vector denote the same value.
pub open spec fn strings_unique(s: Seq<String>) -> bool {
    forall|i: int, j: int| 0 <= i < j < s.len() ==> s[i]@ != s[j]@
}

/// No two names in the vector denote the same value.
pub open spec fn repos_unique(s: Seq<RepositoryName>) -> bool {
    forall|i: int, j: int| 0 <= i < j < s.len() ==> s[i]@ != s[j]@
}

pub(crate) fn string_vec_contains(v: &Vec<String>, x: &String) -> (r: bool)
    ensures
        r == string_set(v@).contains(x@),
{
    let mut i: usize = 0;
    while i < v.len()
        invariant
            0 <= i <= v@.len(),
            forall|j: int| 0 <= j < i ==> v@[j]@ != x@,
        decreases v@.len() - i,
    {
        if v[i] == *x {
            return true;
        }
        i = i + 1;
    }
    false
}

fn string_vec_insert(v: &mut Vec<String>, x: String)
    requires
        strings_unique(old(v)@),
    ensures
        strings_unique(final(v)@),
        string_set(final(v)@) == string_set(old(v)@).insert(x@),
{
    let ghost xv = x@;
    let present = string_vec_contains(v, &x);
    if !present {
        v.push(x);
        proof {
            assert forall|a: int, b: int| 0 <= a < b < v@.len() implies v@[a]@ != v@[b]@ by {
                if b < v@.len() - 1 {
                    assert(v@[a] == old(v)@[a] && v@[b] == old(v)@[b]);
                }
            }
            assert forall|c: Seq<char>|
                string_set(v@).contains(c) implies string_set(old(v)@).insert(xv).contains(c) by {
                let j = choose|j: int| 0 <= j < v@.len() && v@[j]@ == c;
                if j < v@.len() - 1 {
                    assert(old(v)@[j]@ == c);
                }
            }
            assert forall|c: Seq<char>|
                string_set(old(v)@).insert(xv).contains(c) implies string_set(v@).contains(c) by {
                if c == xv {
                    assert(v@[v@.len() - 1]@ == c);
                } else {
                    let j = choose|j: int| 0 <= j < old(v)@.len() && old(v)@[j]@ == c;
                    assert(v@[j]@ == c);
                }
            }
            assert(string_set(v@) =~= string_set(old(v)@).insert(xv));
        }
    } else {
        proof {
            assert(string_set(old(v)@).contains(xv));
            assert(string_set(v@) =~= string_set(old(v)@).insert(xv));
        }
    }
}

fn string_vec_remove(v: &mut Vec<String>, x: &String)
    requires
        strings_unique(old(v)@),
    ensures
        strings_unique(final(v)@),
        string_set(final(v)@) == string_set(old(v)@).remove(x@),
{
    let mut i: usize = 0;
    while i < v.len()
        invariant
            strings_unique(v@),
            v@ == old(v)@,
            0 <= i <= v@.len(),
            forall|j: int| 0 <= j < i ==> v@[j]@ != x@,
        decreases v@.len() - i,
    {
        if v[i] == *x {
            v.remove(i);
            proof {
                assert forall|a: int, b: int| 0 <= a < b < v@.len() implies v@[a]@ != v@[b]@ by {
                    let a0 = if a < i { a } else { a + 1 };
                    let b0 = if b < i { b } else { b + 1 };
                    assert(v@[a] == old(v)@[a0] && v@[b] == old(v)@[b0]);
                }
                assert forall|c: Seq<char>|
                    string_set(v@).contains(c) implies string_set(old(v)@).remove(x@).contains(
                    c,
                ) by {
                    let j = choose|j: int| 0 <= j < v@.len() && v@[j]@ == c;
                    let j0 = if j < i { j } else { j + 1 };
                    assert(old(v)@[j0]@ == c);
                    assert(c != x@);
                }
                assert forall|c: Seq<char>|
                    string_set(old(v)@).remove(x@).contains(c) implies string_set(v@).contains(
                    c,
                ) by {
                    let j0 = choose|j0: int| 0 <= j0 < old(v)@.len() && old(v)@[j0]@ == c;
                    let j = if j0 < i { j0 } else { j0 - 1 };
                    assert(j0 != i);
                    assert(v@[j]@ == c);
                }
                assert(string_set(v@) =~= string_set(old(v)@).remove(x@));
            }
            return ;
        }
        i = i + 1;
    }
    proof {
        assert(string_set(v@) =~= string_set(old(v)@).remove(x@));
    }
}

pub(crate) fn repo_vec_contains(v: &Vec<RepositoryName>, x: &RepositoryName) -> (r: bool)
    ensures
        r == repo_set(v@).contains(x@),
{
    let mut i: usize = 0;
    while i < v.len()
        invariant
            0 <= i <= v@.len(),
            forall|j: int| 0 <= j < i ==> v@[j]@ != x@,
        decreases v@.len() - i,
    {
        if v[i] == *x {
            return true;
        }
        i = i + 1;
    }
    false
}

fn repo_vec_insert(v: &mut Vec<RepositoryName>, x: RepositoryName)
    requires
        repos_unique(old(v)@),
    ensures
        repos_unique(final(v)@),
        repo_set(final(v)@) == repo_set(old(v)@).insert(x@),
{
    let ghost xv = x@;
    let present = repo_vec_contains(v, &x);
    if !present {
        v.push(x);
        proof {
            assert forall|a: int, b: int| 0 <= a < b < v@.len() implies v@[a]@ != v@[b]@ by {
                if b < v@.len() - 1 {
                    assert(v@[a] == old(v)@[a] && v@[b] == old(v)@[b]);
                }
            }
            assert forall|c: Seq<char>|
                repo_set(v@).contains(c) implies repo_set(old(v)@).insert(xv).contains(c) by {
                let j = choose|j: int| 0 <= j < v@.len() && v@[j]@ == c;
                if j < v@.len() - 1 {
                    assert(old(v)@[j]@ == c);
                }
            }
            assert forall|c: Seq<char>|
                repo_set(old(v)@).insert(xv).contains(c) implies repo_set(v@).contains(c) by {
                if c == xv {
                    assert(v@[v@.len() - 1]@ == c);
                } else {
                    let j = choose|j: int| 0 <= j < old(v)@.len() && old(v)@[j]@ == c;
                    assert(v@[j]@ == c);
                }
            }
            assert(repo_set(v@) =~= repo_set(old(v)@).insert(xv));
        }
    } else {
        proof {
            assert(repo_set(old(v)@).contains(xv));
            assert(repo_set(v@) =~= repo_set(old(v)@).insert(xv));
        }
    }
}

fn repo_vec_remove(v: &mut Vec<RepositoryName>, x: &RepositoryName)
    requires
        repos_unique(old(v)@),
    ensures
        repos_unique(final(v)@),
        repo_set(final(v)@) == repo_set(old(v)@).remove(x@),
{
    let mut i: usize = 0;
    while i < v.len()
        invariant
            repos_unique(v@),
            v@ == old(v)@,
            0 <= i <= v@.len(),
            forall|j: int| 0 <= j < i ==> v@[j]@ != x@,
        decreases v@.len() - i,
    {
        if v[i] == *x {
            v.remove(i);
            proof {
                assert forall|a: int, b: int| 0 <= a < b < v@.len() implies v@[a]@ != v@[b]@ by {
                    let a0 = if a < i { a } else { a + 1 };
                    let b0 = if b < i { b } else { b + 1 };
                    assert(v@[a] == old(v)@[a0] && v@[b] == old(v)@[b0]);
                }
                assert forall|c: Seq<char>|
                    repo_set(v@).contains(c) implies repo_set(old(v)@).remove(x@).contains(c) by {
                    let j = choose|j: int| 0 <= j < v@.len() && v@[j]@ == c;
                    let j0 = if j < i { j } else { j + 1 };
                    assert(old(v)@[j0]@ == c);
                    assert(c != x@);
                }
                assert forall|c: Seq<char>|
                    repo_set(old(v)@).remove(x@).contains(c) implies repo_set(v@).contains(c) by {
                    let j0 = choose|j0: int| 0 <= j0 < old(v)@.len() && old(v)@[j0]@ == c;
                    let j = if j0 < i { j0 } else { j0 - 1 };
                    assert(j0 != i);
                    assert(v@[j]@ == c);
                }
                assert(repo_set(v@) =~= repo_set(old(v)@).remove(x@));
            }
            return ;
        }
        i = i + 1;
    }
    proof {
        assert(repo_set(v@) =~= repo_set(old(v)@).remove(x@));
    }
}

/// Association-list well-formedness: unique keys and well-formed
/// entities.
pub open spec fn store_wf(s: Seq<(Digest, Entity)>) -> bool {
    &&& store_keys_unique(s)
    &&& forall|i: int| 0 <= i < s.len() ==> (#[trigger] s[i].1).wf()
}

fn store_find(store: &Vec<(Digest, Entity)>, d: &Digest) -> (r: Option<usize>)
    ensures
        match r {
            Some(i) => 0 <= i < store@.len() && store@[i as int].0@ == d@,
            None => forall|i: int| 0 <= i < store@.len() ==> store@[i].0@ != d@,
        },
{
    let mut i: usize = 0;
    while i < store.len()
        invariant
            0 <= i <= store@.len(),
            forall|j: int| 0 <= j < i ==> store@[j].0@ != d@,
        decreases store@.len() - i,
    {
        if store[i].0 == *d {
            return Some(i);
        }
        i = i + 1;
    }
    None
}

/// Insert-or-fetch the entity at `d`, add one repository, stamp `t`.
fn store_mount(store: &mut Vec<(Digest, Entity)>, d: &Digest, repository: RepositoryName, t: i64)
    requires
        store_wf(old(store)@),
    ensures
        store_wf(final(store)@),
        store_map(final(store)@) == apply_mounted(
            store_map(old(store)@),
            d@,
            repository@,
            t as int,
        ),
{
    proof {
        lemma_store_contains(old(store)@, d@);
    }
    match store_find(store, d) {
        Some(i) => {
            proof {
                lemma_store_index(store@, i as int);
                lemma_store_remove(store@, i as int);
            }
            let (d0, mut e) = store.remove(i);
            let ghost e0 = e@;
            let ghost mid = store@;
            e.updated = t;
            repo_vec_insert(&mut e.repositories, repository);
            proof {
                assert(e@ =~= EntityView {
                    updated: t as int,
                    repositories: e0.repositories.insert(repository@),
                    ..e0
                });
                lemma_store_contains(mid, d0@);
                lemma_store_push(mid, (d0, e));
            }
            let ghost ev = e@;
            store.push((d0, e));
            proof {
                assert(store_map(store@) =~= apply_mounted(
                    store_map(old(store)@),
                    d@,
                    repository@,
                    t as int,
                ));
            }
        },
        None => {
            let mut repositories: Vec<RepositoryName> = Vec::new();
            repo_vec_insert(&mut repositories, repository);
            let e = Entity {
                created: t,
                updated: t,
                content_type: None,
                size: None,
                dependencies: Some(Vec::new()),
                locations: Vec::new(),
                repositories,
            };
            proof {
                assert(string_set(e.locations@) =~= Set::<Seq<char>>::empty());
                assert(repo_set(Seq::<RepositoryName>::empty()) =~= Set::<Seq<char>>::empty());
                assert(digests_view(Seq::<Digest>::empty()) =~= Seq::<DigestView>::empty());
                assert(e@ =~~= EntityView {
                    updated: t as int,
                    repositories: fresh_entity(t as int).repositories.insert(repository@),
                    ..fresh_entity(t as int)
                });
            }
            let dd = d.duplicate();
            proof {
                lemma_store_push(store@, (dd, e));
            }
            store.push((dd, e));
            proof {
                assert(store_map(store@) =~= apply_mounted(
                    store_map(old(store)@),
                    d@,
                    repository@,
                    t as int,
                ));
            }
        },
    }
}

/// Insert-or-fetch the entity at `d`, add one location, stamp `t`.
fn store_store(store: &mut Vec<(Digest, Entity)>, d: &Digest, location: String, t: i64)
    requires
        store_wf(old(store)@),
    ensures
        store_wf(final(store)@),
        store_map(final(store)@) == apply_stored(store_map(old(store)@), d@, location@, t as int),
{
    proof {
        lemma_store_contains(old(store)@, d@);
    }
    match store_find(store, d) {
        Some(i) => {
            proof {
                lemma_store_index(store@, i as int);
                lemma_store_remove(store@, i as int);
            }
            let (d0, mut e) = store.remove(i);
            let ghost e0 = e@;
            let ghost mid = store@;
            e.updated = t;
            string_vec_insert(&mut e.locations, location);
            proof {
                assert(e@ =~= EntityView {
                    updated: t as int,
                    locations: e0.locations.insert(location@),
                    ..e0
                });
                lemma_store_contains(mid, d0@);
                lemma_store_push(mid, (d0, e));
            }
            store.push((d0, e));
            proof {
                assert(store_map(store@) =~= apply_stored(
                    store_map(old(store)@),
                    d@,
                    location@,
                    t as int,
                ));
            }
        },
        None => {
            let mut locations: Vec<String> = Vec::new();
            string_vec_insert(&mut locations, location);
            let e = Entity {
                created: t,
                updated: t,
                content_type: None,
                size: None,
                dependencies: Some(Vec::new()),
                locations,
                repositories: Vec::new(),
            };
            proof {
                assert(repo_set(e.repositories@) =~= Set::<Seq<char>>::empty());
                assert(string_set(Seq::<String>::empty()) =~= Set::<Seq<char>>::empty());
                assert(digests_view(Seq::<Digest>::empty()) =~= Seq::<DigestView>::empty());
                assert(e@ =~~= EntityView {
                    updated: t as int,
                    locations: fresh_entity(t as int).locations.insert(location@),
                    ..fresh_entity(t as int)
                });
            }
            let dd = d.duplicate();
            proof {
                lemma_store_push(store@, (dd, e));
            }
            store.push((dd, e));
            proof {
                assert(store_map(store@) =~= apply_stored(
                    store_map(old(store)@),
                    d@,
                    location@,
                    t as int,
                ));
            }
        },
    }
}

/// Remove one repository from the entity at `d`, dropping the entity
/// when nothing references it any more.
fn store_unmount(store: &mut Vec<(Digest, Entity)>, d: &Digest, repository: &RepositoryName, t: i64)
    requires
        store_wf(old(store)@),
    ensures
        store_wf(final(store)@),
        store_map(final(store)@) == apply_unmounted(
            store_map(old(store)@),
            d@,
            repository@,
            t as int,
        ),
{
    proof {
        lemma_store_contains(old(store)@, d@);
    }
    match store_find(store, d) {
        Some(i) => {
            proof {
                lemma_store_index(store@, i as int);
                lemma_store_remove(store@, i as int);
            }
            let (d0, mut e) = store.remove(i);
            let ghost e0 = e@;
            let ghost mid = store@;
            e.updated = t;
            repo_vec_remove(&mut e.repositories, repository);
            proof {
                assert(e@ =~= EntityView {
                    updated: t as int,
                    repositories: e0.repositories.remove(repository@),
                    ..e0
                });
            }
            if e.repositories.len() == 0 && e.locations.len() == 0 {
                proof {
                    assert(e@.repositories =~= Set::<Seq<char>>::empty());
                    assert(e@.locations =~= Set::<Seq<char>>::empty());
                    assert(store_map(store@) =~= apply_unmounted(
                        store_map(old(store)@),
                        d@,
                        repository@,
                        t as int,
                    ));
                }
            } else {
                proof {
                    if e.repositories.len() > 0 {
                        assert(e@.repositories.contains(e.repositories@[0]@));
                    } else {
                        assert(e@.locations.contains(e.locations@[0]@));
                    }
                    assert(keeps_entity(e@));
                    lemma_store_contains(mid, d0@);
                    lemma_store_push(mid, (d0, e));
                }
                store.push((d0, e));
                proof {
                    assert(store_map(store@) =~= apply_unmounted(
                        store_map(old(store)@),
                        d@,
                        repository@,
                        t as int,
                    ));
                }
            }
        },
        None => {
        },
    }
}

/// Remove one location from the entity at `d`, dropping the entity when
/// nothing references it any more.
fn store_unstore(store: &mut Vec<(Digest, Entity)>, d: &Digest, location: &String, t: i64)
    requires
        store_wf(old(store)@),
    ensures
        store_wf(final(store)@),
        store_map(final(store)@) == apply_unstored(
            store_map(old(store)@),
            d@,
            location@,
            t as int,
        ),
{
    proof {
        lemma_store_contains(old(store)@, d@);
    }
    match store_find(store, d) {
        Some(i) => {
            proof {
                lemma_store_index(store@, i as int);
                lemma_store_remove(store@, i as int);
            }
            let (d0, mut e) = store.remove(i);
            let ghost e0 = e@;
            let ghost mid = store@;
            e.updated = t;
            string_vec_remove(&mut e.locations, location);
            proof {
                assert(e@ =~= EntityView {
                    updated: t as int,
                    locations: e0.locations.remove(location@),
                    ..e0
                });
            }
            if e.repositories.len() == 0 && e.locations.len() == 0 {
                proof {
                    assert(e@.repositories =~= Set::<Seq<char>>::empty());
                    assert(e@.locations =~= Set::<Seq<char>>::empty());
                    assert(store_map(store@) =~= apply_unstored(
                        store_map(old(store)@),
                        d@,
                        location@,
                        t as int,
                    ));
                }
            } else {
                proof {
                    if e.repositories.len() > 0 {
                        assert(e@.repositories.contains(e.repositories@[0]@));
                    } else {
                        assert(e@.locations.contains(e.locations@[0]@));
                    }
                    assert(keeps_entity(e@));
                    lemma_store_contains(mid, d0@);
                    lemma_store_push(mid, (d0, e));
                }
                store.push((d0, e));
                proof {
                    assert(store_map(store@) =~= apply_unstored(
                        store_map(old(store)@),
                        d@,
                        location@,
                        t as int,
                    ));
                }
            }
        },
        None => {
        },
    }
}

/// Record the byte size of the entity at `d`, when it exists.
fn store_stat(store: &mut Vec<(Digest, Entity)>, d: &Digest, size: u64, t: i64)
    requires
        store_wf(old(store)@),
    ensures
        store_wf(final(store)@),
        store_map(final(store)@) == apply_stat(store_map(old(store)@), d@, size, t as int),
{
    proof {
        lemma_store_contains(old(store)@, d@);
    }
    match store_find(store, d) {
        Some(i) => {
            proof {
                lemma_store_index(store@, i as int);
                lemma_store_remove(store@, i as int);
            }
            let (d0, mut e) = store.remove(i);
            let ghost e0 = e@;
            let ghost mid = store@;
            e.updated = t;
            e.size = Some(size);
            proof {
                assert(e@ =~= EntityView { updated: t as int, size: Some(size), ..e0 });
                lemma_store_contains(mid, d0@);
                lemma_store_push(mid, (d0, e));
            }
            store.push((d0, e));
            proof {
                assert(store_map(store@) =~= apply_stat(
                    store_map(old(store)@),
                    d@,
                    size,
                    t as int,
                ));
            }
        },
        None => {
        },
    }
}

/// Record derived metadata of the entity at `d`, when it exists.
fn store_info(
    store: &mut Vec<(Digest, Entity)>,
    d: &Digest,
    dependencies: Vec<Digest>,
    content_type: String,
    t: i64,
)
    requires
        store_wf(old(store)@),
    ensures
        store_wf(final(store)@),
        store_map(final(store)@) == apply_info(
            store_map(old(store)@),
            d@,
            digests_view(dependencies@),
            content_type@,
            t as int,
        ),
{
    proof {
        lemma_store_contains(old(store)@, d@);
    }
    match store_find(store, d) {
        Some(i) => {
            proof {
                lemma_store_index(store@, i as int);
                lemma_store_remove(store@, i as int);
            }
            let (d0, mut e) = store.remove(i);
            let ghost e0 = e@;
            let ghost mid = store@;
            e.updated = t;
            e.dependencies = Some(dependencies);
            e.content_type = Some(content_type);
            proof {
                assert(e@ =~= EntityView {
                    updated: t as int,
                    dependencies: Some(digests_view(dependencies@)),
                    content_type: Some(content_type@),
                    ..e0
                });
                lemma_store_contains(mid, d0@);
                lemma_store_push(mid, (d0, e));
            }
            store.push((d0, e));
            proof {
                assert(store_map(store@) =~= apply_info(
                    store_map(old(store)@),
                    d@,
                    digests_view(dependencies@),
                    content_type@,
                    t as int,
                ));
            }
        },
        None => {
        },
    }
}


/// The strings in `tags` are exactly the tags the map binds in
/// `repository`.
pub open spec fn lists_repo_tags(
    m: Map<TagKey, DigestView>,
    repository: Seq<char>,
    tags: Seq<String>,
) -> bool {
    forall|t: Seq<char>|
        m.contains_key(TagKey { repository, tag: t }) == exists|j: int|
            0 <= j < tags.len() && tags[j]@ == t
}

/// Element-wise views of a list of actions.
pub open spec fn actions_view(s: Seq<RegistryAction>) -> Seq<ActionView> {
    s.map(|i: int, a: RegistryAction| a@)
}

/// One node's copy of the graph, together with the node's own name
/// (used to tell which committed `*Stored` actions concern this node).
pub struct RegistryState {
    pub machine_identifier: String,
    blobs: Vec<(Digest, Entity)>,
    manifests: Vec<(Digest, Entity)>,
    tags: Vec<(RepositoryName, String, Digest)>,
}

impl View for RegistryState {
    type V = StateView;

    closed spec fn view(&self) -> StateView {
        StateView {
            blobs: store_map(self.blobs@),
            manifests: store_map(self.manifests@),
            tags: tag_map(self.tags@),
        }
    }
}

impl RegistryState {
    /// Internal representation invariant: association lists with unique
    /// keys and well-formed entities.
    /// The node's own name, as contracts see it.
    pub closed spec fn spec_id(&self) -> Seq<char> {
        self.machine_identifier@
    }

    pub closed spec fn wf(&self) -> bool {
        &&& store_wf(self.blobs@)
        &&& store_wf(self.manifests@)
        &&& tag_keys_unique(self.tags@)
    }

    /// The node's own name.
    pub fn identifier(&self) -> (r: &String)
        ensures
            r@ == self.spec_id(),
    {
        &self.machine_identifier
    }

    /// An empty graph for the node called `machine_identifier`.
    pub fn new(machine_identifier: String) -> (r: RegistryState)
        ensures
            r.wf(),
            r@.blobs == Map::<DigestView, EntityView>::empty(),
            r@.manifests == Map::<DigestView, EntityView>::empty(),
            r@.tags == Map::<TagKey, DigestView>::empty(),
            r.spec_id() == machine_identifier@,
    {
        RegistryState {
            machine_identifier,
            blobs: Vec::new(),
            manifests: Vec::new(),
            tags: Vec::new(),
        }
    }

    /// Apply one committed action to the graph.
    fn apply_one(&mut self, action: &RegistryAction)
        requires
            old(self).wf(),
        ensures
            final(self).wf(),
            final(self)@ == apply_action(old(self)@, action@),
            final(self).spec_id() == old(self).spec_id(),
    {
        match action {
            RegistryAction::Empty => {
                proof {
                    assert(self@ =~= apply_action(self@, action@));
                }
            },
            RegistryAction::BlobMounted { timestamp, digest, repository, .. } => {
                store_mount(&mut self.blobs, digest, repository.duplicate(), *timestamp);
            },
            RegistryAction::BlobUnmounted { timestamp, digest, repository, .. } => {
                store_unmount(&mut self.blobs, digest, repository, *timestamp);
            },
            RegistryAction::BlobStored { timestamp, digest, location, .. } => {
                store_store(&mut self.blobs, digest, location.clone(), *timestamp);
            },
            RegistryAction::BlobUnstored { timestamp, digest, location, .. } => {
                store_unstore(&mut self.blobs, digest, location, *timestamp);
            },
            RegistryAction::BlobStat { timestamp, digest, size } => {
                store_stat(&mut self.blobs, digest, *size, *timestamp);
            },
            RegistryAction::BlobInfo { timestamp, digest, dependencies, content_type } => {
                store_info(
                    &mut self.blobs,
                    digest,
                    duplicate_digests(dependencies),
                    content_type.clone(),
                    *timestamp,
                );
            },
            RegistryAction::ManifestMounted { timestamp, digest, repository, .. } => {
                store_mount(&mut self.manifests, digest, repository.duplicate(), *timestamp);
            },
            RegistryAction::ManifestUnmounted { timestamp, digest, repository, .. } => {
                store_unmount(&mut self.manifests, digest, repository, *timestamp);
            },
            RegistryAction::ManifestStored { timestamp, digest, location, .. } => {
                store_store(&mut self.manifests, digest, location.clone(), *timestamp);
            },
            RegistryAction::ManifestUnstored { timestamp, digest, location, .. } => {
                store_unstore(&mut self.manifests, digest, location, *timestamp);
            },
            RegistryAction::ManifestStat { timestamp, digest, size } => {
                store_stat(&mut self.manifests, digest, *size, *timestamp);
            },
            RegistryAction::ManifestInfo { timestamp, digest, dependencies, content_type } => {
                store_info(
                    &mut self.manifests,
                    digest,
                    duplicate_digests(dependencies),
                    content_type.clone(),
                    *timestamp,
                );
            },
            RegistryAction::HashTagged { digest, repository, tag, .. } => {
                self.set_tag(repository, tag, digest);
            },
        }
        proof {
            assert(self@ =~= apply_action(old(self)@, action@));
        }
    }

    /// Bind `(repository, tag)` to `digest`; the latest write wins.
    fn set_tag(&mut self, repository: &RepositoryName, tag: &String, digest: &Digest)
        requires
            old(self).wf(),
        ensures
            final(self).wf(),
            final(self)@.tags == old(self)@.tags.insert(
                TagKey { repository: repository@, tag: tag@ },
                digest@,
            ),
            final(self)@.blobs == old(self)@.blobs,
            final(self)@.manifests == old(self)@.manifests,
            final(self).spec_id() == old(self).spec_id(),
    {
        let ghost k = TagKey { repository: repository@, tag: tag@ };
        let mut i: usize = 0;
        let n = self.tags.len();
        while i < n
            invariant
                old(self).wf(),
                self == old(self),
                k == (TagKey { repository: repository@, tag: tag@ }),
                n == self.tags@.len(),
                0 <= i <= n,
                forall|j: int|
                    0 <= j < i ==> !(self.tags@[j].0@ == repository@ && self.tags@[j].1@ == tag@),
            decreases n - i,
        {
            if self.tags[i].0 == *repository && self.tags[i].1 == *tag {
                let ghost tags0 = self.tags@;
                proof {
                    assert(TagKey { repository: tags0[i as int].0@, tag: tags0[i as int].1@ } == k);
                    lemma_tag_remove(tags0, i as int);
                }
                self.tags.remove(i);
                let ghost mid = self.tags@;
                let p = (repository.duplicate(), tag.clone(), digest.duplicate());
                proof {
                    assert(tag_map(mid) == tag_map(tags0).remove(k));
                    assert(!tag_map(mid).contains_key(k));
                    assert(TagKey { repository: p.0@, tag: p.1@ } == k);
                    lemma_tag_push(mid, p);
                }
                self.tags.push(p);
                proof {
                    assert(tag_map(self.tags@) == tag_map(mid).insert(k, digest@));
                    assert(tag_map(self.tags@) =~= tag_map(tags0).insert(k, digest@));
                }
                return ;
            }
            i = i + 1;
        }
        proof {
            lemma_tag_contains(self.tags@, k);
        }
        let p = (repository.duplicate(), tag.clone(), digest.duplicate());
        proof {
            lemma_tag_push(self.tags@, p);
        }
        self.tags.push(p);
        proof {
            assert(tag_map(self.tags@) =~= tag_map(old(self).tags@).insert(k, digest@));
        }
    }

    /// Apply a committed batch, in order.  The graph afterwards is a
    /// pure function of the graph before and the batch: replaying the
    /// same log always rebuilds the same graph.
    pub fn dispatch_actions(&mut self, actions: Vec<RegistryAction>)
        requires
            old(self).wf(),
        ensures
            final(self).wf(),
            final(self)@ == apply_actions(old(self)@, actions_view(actions@)),
            final(self).spec_id() == old(self).spec_id(),
    {
        let n = actions.len();
        let mut i: usize = 0;
        proof {
            assert(actions_view(actions@).take(0) =~= Seq::<ActionView>::empty());
        }
        while i < n
            invariant
                self.wf(),
                n == actions@.len(),
                0 <= i <= n,
                self@ == apply_actions(old(self)@, actions_view(actions@).take(i as int)),
                self.spec_id() == old(self).spec_id(),
            decreases n - i,
        {
            let ghost pre = self@;
            self.apply_one(&actions[i]);
            proof {
                let av = actions_view(actions@);
                assert(av.take(i + 1).drop_last() =~= av.take(i as int));
                assert(av.take(i + 1).last() == av[i as int]);
            }
            i = i + 1;
        }
        proof {
            assert(actions_view(actions@).take(n as int) =~= actions_view(actions@));
        }
    }
}


impl RegistryState {
    /// Is the blob mounted in this repository?
    pub fn is_blob_available(&self, repository: &RepositoryName, hash: &Digest) -> (r: bool)
        requires
            self.wf(),
        ensures
            r == (self@.blobs.contains_key(hash@) && self@.blobs[hash@].repositories.contains(
                repository@,
            )),
    {
        proof {
            lemma_store_contains(self.blobs@, hash@);
        }
        match store_find(&self.blobs, hash) {
            Some(i) => {
                proof {
                    lemma_store_index(self.blobs@, i as int);
                }
                repo_vec_contains(&self.blobs[i].1.repositories, repository)
            },
            None => false,
        }
    }

    /// Is the manifest mounted in this repository?
    pub fn is_manifest_available(&self, repository: &RepositoryName, hash: &Digest) -> (r: bool)
        requires
            self.wf(),
        ensures
            r == (self@.manifests.contains_key(hash@)
                && self@.manifests[hash@].repositories.contains(repository@)),
    {
        proof {
            lemma_store_contains(self.manifests@, hash@);
        }
        match store_find(&self.manifests, hash) {
            Some(i) => {
                proof {
                    lemma_store_index(self.manifests@, i as int);
                }
                repo_vec_contains(&self.manifests[i].1.repositories, repository)
            },
            None => false,
        }
    }

    /// The blob at this digest, whichever repositories hold it.
    pub fn get_blob_directly(&self, hash: &Digest) -> (r: Option<Blob>)
        requires
            self.wf(),
        ensures
            match r {
                Some(b) => self@.blobs.contains_key(hash@) && b@ == self@.blobs[hash@],
                None => !self@.blobs.contains_key(hash@),
            },
    {
        proof {
            lemma_store_contains(self.blobs@, hash@);
        }
        match store_find(&self.blobs, hash) {
            Some(i) => {
                proof {
                    lemma_store_index(self.blobs@, i as int);
                }
                Some(self.blobs[i].1.duplicate())
            },
            None => None,
        }
    }

    /// The blob at this digest, when this repository mounts it.
    pub fn get_blob(&self, repository: &RepositoryName, hash: &Digest) -> (r: Option<Blob>)
        requires
            self.wf(),
        ensures
            match r {
                Some(b) => self@.blobs.contains_key(hash@) && b@ == self@.blobs[hash@]
                    && b@.repositories.contains(repository@),
                None => !(self@.blobs.contains_key(hash@)
                    && self@.blobs[hash@].repositories.contains(repository@)),
            },
    {
        proof {
            lemma_store_contains(self.blobs@, hash@);
        }
        match store_find(&self.blobs, hash) {
            Some(i) => {
                proof {
                    lemma_store_index(self.blobs@, i as int);
                }
                if repo_vec_contains(&self.blobs[i].1.repositories, repository) {
                    Some(self.blobs[i].1.duplicate())
                } else {
                    None
                }
            },
            None => None,
        }
    }

    /// The manifest at this digest, whichever repositories hold it.
    pub fn get_manifest_directly(&self, hash: &Digest) -> (r: Option<Manifest>)
        requires
            self.wf(),
        ensures
            match r {
                Some(m) => self@.manifests.contains_key(hash@) && m@ == self@.manifests[hash@],
                None => !self@.manifests.contains_key(hash@),
            },
    {
        proof {
            lemma_store_contains(self.manifests@, hash@);
        }
        match store_find(&self.manifests, hash) {
            Some(i) => {
                proof {
                    lemma_store_index(self.manifests@, i as int);
                }
                Some(self.manifests[i].1.duplicate())
            },
            None => None,
        }
    }

    /// The manifest at this digest, when this repository mounts it.
    pub fn get_manifest(&self, repository: &RepositoryName, hash: &Digest) -> (r: Option<Manifest>)
        requires
            self.wf(),
        ensures
            match r {
                Some(m) => self@.manifests.contains_key(hash@) && m@ == self@.manifests[hash@]
                    && m@.repositories.contains(repository@),
                None => !(self@.manifests.contains_key(hash@)
                    && self@.manifests[hash@].repositories.contains(repository@)),
            },
    {
        proof {
            lemma_store_contains(self.manifests@, hash@);
        }
        match store_find(&self.manifests, hash) {
            Some(i) => {
                proof {
                    lemma_store_index(self.manifests@, i as int);
                }
                if repo_vec_contains(&self.manifests[i].1.repositories, repository) {
                    Some(self.manifests[i].1.duplicate())
                } else {
                    None
                }
            },
            None => None,
        }
    }

    /// The digest a tag points at, if the tag is bound: a `HashTagged`
    /// immediately followed by this query returns its digest.
    pub fn get_tag(&self, repository: &RepositoryName, tag: &String) -> (r: Option<Digest>)
        requires
            self.wf(),
        ensures
            match r {
                Some(d) => self@.tags.contains_key(TagKey { repository: repository@, tag: tag@ })
                    && d@ == self@.tags[TagKey { repository: repository@, tag: tag@ }],
                None => !self@.tags.contains_key(TagKey { repository: repository@, tag: tag@ }),
            },
    {
        let ghost k = TagKey { repository: repository@, tag: tag@ };
        proof {
            lemma_tag_contains(self.tags@, k);
        }
        let n = self.tags.len();
        let mut i: usize = 0;
        while i < n
            invariant
                self.wf(),
                k == (TagKey { repository: repository@, tag: tag@ }),
                n == self.tags@.len(),
                0 <= i <= n,
                forall|j: int|
                    0 <= j < i ==> !(self.tags@[j].0@ == repository@ && self.tags@[j].1@ == tag@),
            decreases n - i,
        {
            if self.tags[i].0 == *repository && self.tags[i].1 == *tag {
                proof {
                    lemma_tag_index(self.tags@, i as int);
                }
                return Some(self.tags[i].2.duplicate());
            }
            i = i + 1;
        }
        proof {
            lemma_tag_contains(self.tags@, k);
        }
        None
    }

    /// All tags bound in this repository, or `None` when it has none.
    #[verifier::loop_isolation(false)]
    pub fn get_tags(&self, repository: &RepositoryName) -> (r: Option<Vec<String>>)
        requires
            self.wf(),
        ensures
            match r {
                Some(v) => lists_repo_tags(self@.tags, repository@, v@) && v@.len() > 0 && (
                forall|j1: int, j2: int|
                    0 <= j1 < j2 < v@.len() ==> (#[trigger] v@[j1])@ != (#[trigger] v@[j2])@),
                None => forall|t: Seq<char>|
                    !self@.tags.contains_key(TagKey { repository: repository@, tag: t }),
            },
    {
        let mut found: Vec<String> = Vec::new();
        let n = self.tags.len();
        let mut i: usize = 0;
        while i < n
            invariant
                self.wf(),
                n == self.tags@.len(),
                0 <= i <= n,
                forall|idx: int|
                    0 <= idx < i && (#[trigger] self.tags@[idx]).0@ == repository@
                        ==> exists|j: int| 0 <= j < found@.len() && found@[j]@
                        == self.tags@[idx].1@,
                forall|j: int|
                    0 <= j < found@.len() ==> self@.tags.contains_key(
                        TagKey { repository: repository@, tag: (#[trigger] found@[j])@ },
                    ),
                forall|j: int|
                    0 <= j < found@.len() ==> exists|idx: int|
                        0 <= idx < i && (#[trigger] self.tags@[idx]).0@ == repository@
                            && self.tags@[idx].1@ == (#[trigger] found@[j])@,
                forall|j1: int, j2: int|
                    0 <= j1 < j2 < found@.len() ==> (#[trigger] found@[j1])@ != (
                    #[trigger] found@[j2])@,
            decreases n - i,
        {
            if self.tags[i].0 == *repository {
                let ghost pre = found@;
                found.push(self.tags[i].1.clone());
                proof {
                    assert(found@[found@.len() - 1]@ == self.tags@[i as int].1@);
                    assert forall|idx: int|
                        0 <= idx < i + 1 && (#[trigger] self.tags@[idx]).0@
                            == repository@ implies exists|j: int|
                        0 <= j < found@.len() && found@[j]@ == self.tags@[idx].1@ by {
                        if idx < i {
                            let j = choose|j: int| 0 <= j < pre.len() && pre[j]@
                                == self.tags@[idx].1@;
                            assert(found@[j]@ == self.tags@[idx].1@);
                        } else {
                            assert(found@[found@.len() - 1]@ == self.tags@[idx].1@);
                        }
                    }
                    lemma_tag_index(self.tags@, i as int);
                    assert(self@.tags.contains_key(
                        TagKey { repository: repository@, tag: found@[found@.len() - 1]@ },
                    ));
                    assert forall|j: int| 0 <= j < found@.len() implies exists|idx: int|
                        0 <= idx < i + 1 && (#[trigger] self.tags@[idx]).0@ == repository@
                            && self.tags@[idx].1@ == (#[trigger] found@[j])@ by {
                        if j < pre.len() {
                            let idx = choose|idx: int|
                                0 <= idx < i && (#[trigger] self.tags@[idx]).0@ == repository@
                                    && self.tags@[idx].1@ == pre[j]@;
                            assert(found@[j] == pre[j]);
                            assert(self.tags@[idx].0@ == repository@ && self.tags@[idx].1@
                                == found@[j]@);
                        } else {
                            assert(self.tags@[i as int].0@ == repository@ && self.tags@[i as int].1@
                                == found@[j]@);
                        }
                    }
                    assert forall|j1: int, j2: int|
                        0 <= j1 < j2 < found@.len() implies (#[trigger] found@[j1])@ != (
                        #[trigger] found@[j2])@ by {
                        if j2 < pre.len() {
                            assert(found@[j1] == pre[j1] && found@[j2] == pre[j2]);
                        } else {
                            assert(found@[j1] == pre[j1]);
                            if found@[j1]@ == found@[j2]@ {
                                let idx = choose|idx: int|
                                    0 <= idx < i && (#[trigger] self.tags@[idx]).0@ == repository@
                                        && self.tags@[idx].1@ == pre[j1]@;
                                assert(self.tags@[idx].1@ == self.tags@[i as int].1@);
                                assert(self.tags@[idx].0@ == self.tags@[i as int].0@);
                                assert(false);
                            }
                        }
                    }
                }
            }
            i = i + 1;
        }
        if found.len() == 0 {
            proof {
                assert forall|t: Seq<char>|
                    !self@.tags.contains_key(TagKey { repository: repository@, tag: t }) by {
                    lemma_tag_contains(self.tags@, TagKey { repository: repository@, tag: t });
                }
            }
            None
        } else {
            proof {
                assert forall|t: Seq<char>|
                    self@.tags.contains_key(TagKey { repository: repository@, tag: t })
                        == exists|j: int| 0 <= j < found@.len() && found@[j]@ == t by {
                    lemma_tag_contains(self.tags@, TagKey { repository: repository@, tag: t });
                    if self@.tags.contains_key(TagKey { repository: repository@, tag: t }) {
                        let idx = choose|idx: int|
                            0 <= idx < self.tags@.len() && self.tags@[idx].0@ == repository@
                                && self.tags@[idx].1@ == t;
                        assert(0 <= idx < n && (self.tags@[idx]).0@ == repository@);
                    }
                    if exists|j: int| 0 <= j < found@.len() && found@[j]@ == t {
                        let j = choose|j: int| 0 <= j < found@.len() && found@[j]@ == t;
                        assert(self@.tags.contains_key(
                            TagKey { repository: repository@, tag: found@[j]@ },
                        ));
                    }
                }
            }
            Some(found)
        }
    }

    /// Blobs no repository references any more.
    pub fn get_orphaned_blobs(&self) -> (r: Vec<BlobEntry>)
        requires
            self.wf(),
        ensures
            forall|j: int|
                0 <= j < r@.len() ==> self@.blobs.contains_key(#[trigger] r@[j].digest@)
                    && r@[j].blob@ == self@.blobs[r@[j].digest@]
                    && r@[j].blob@.repositories.is_empty(),
            forall|k: DigestView|
                self@.blobs.contains_key(k) && self@.blobs[k].repositories.is_empty()
                    ==> exists|j: int| 0 <= j < r@.len() && r@[j].digest@ == k,
            forall|j1: int, j2: int|
                0 <= j1 < j2 < r@.len() ==> (#[trigger] r@[j1]).digest@ != (#[trigger] r@[j2]).digest@,
    {
        let mut found: Vec<BlobEntry> = Vec::new();
        let n = self.blobs.len();
        let mut i: usize = 0;
        while i < n
            invariant
                self.wf(),
                n == self.blobs@.len(),
                0 <= i <= n,
                forall|j: int|
                    0 <= j < found@.len() ==> self@.blobs.contains_key(
                        #[trigger] found@[j].digest@,
                    ) && found@[j].blob@ == self@.blobs[found@[j].digest@]
                        && found@[j].blob@.repositories.is_empty(),
                forall|idx: int|
                    0 <= idx < i && (#[trigger] self.blobs@[idx].1)@.repositories.is_empty()
                        ==> exists|j: int|
                        0 <= j < found@.len() && found@[j].digest@ == self.blobs@[idx].0@,
                forall|j: int|
                    0 <= j < found@.len() ==> exists|idx: int|
                        0 <= idx < i && (#[trigger] self.blobs@[idx]).0@ == (
                        #[trigger] found@[j]).digest@,
                forall|j1: int, j2: int|
                    0 <= j1 < j2 < found@.len() ==> (#[trigger] found@[j1]).digest@ != (
                    #[trigger] found@[j2]).digest@,
            decreases n - i,
        {
            proof {
                lemma_store_index(self.blobs@, i as int);
                if self.blobs@[i as int].1.repositories@.len() == 0 {
                    assert(repo_set(self.blobs@[i as int].1.repositories@)
                        =~= Set::<Seq<char>>::empty());
                } else {
                    assert(repo_set(self.blobs@[i as int].1.repositories@).contains(
                        self.blobs@[i as int].1.repositories@[0]@,
                    ));
                }
            }
            if self.blobs[i].1.repositories.len() == 0 {
                let ghost pre = found@;
                found.push(
                    BlobEntry {
                        digest: self.blobs[i].0.duplicate(),
                        blob: self.blobs[i].1.duplicate(),
                    },
                );
                proof {
                    assert forall|idx: int|
                        0 <= idx < i + 1 && (#[trigger] self.blobs@[idx].1)@.repositories.is_empty()
                            implies exists|j: int|
                        0 <= j < found@.len() && found@[j].digest@ == self.blobs@[idx].0@ by {
                        if idx < i {
                            let j = choose|j: int|
                                0 <= j < pre.len() && pre[j].digest@ == self.blobs@[idx].0@;
                            assert(found@[j].digest@ == self.blobs@[idx].0@);
                        } else {
                            assert(found@[found@.len() - 1].digest@ == self.blobs@[idx].0@);
                        }
                    }
                    assert forall|j: int| 0 <= j < found@.len() implies exists|idx: int|
                        0 <= idx < i + 1 && (#[trigger] self.blobs@[idx]).0@ == (
                        #[trigger] found@[j]).digest@ by {
                        if j < pre.len() {
                            let idx = choose|idx: int|
                                0 <= idx < i && (#[trigger] self.blobs@[idx]).0@
                                    == pre[j].digest@;
                            assert(found@[j] == pre[j]);
                            assert(self.blobs@[idx].0@ == found@[j].digest@);
                        } else {
                            assert(self.blobs@[i as int].0@ == found@[j].digest@);
                        }
                    }
                    assert forall|j1: int, j2: int|
                        0 <= j1 < j2 < found@.len() implies (#[trigger] found@[j1]).digest@ != (
                        #[trigger] found@[j2]).digest@ by {
                        if j2 < pre.len() {
                            assert(found@[j1] == pre[j1] && found@[j2] == pre[j2]);
                        } else {
                            assert(found@[j1] == pre[j1]);
                            if found@[j1].digest@ == found@[j2].digest@ {
                                let idx = choose|idx: int|
                                    0 <= idx < i && (#[trigger] self.blobs@[idx]).0@
                                        == pre[j1].digest@;
                                assert(self.blobs@[idx].0@ == self.blobs@[i as int].0@);
                                assert(false);
                            }
                        }
                    }
                }
            }
            i = i + 1;
        }
        proof {
            assert forall|k: DigestView|
                self@.blobs.contains_key(k) && self@.blobs[k].repositories.is_empty()
                    implies exists|j: int| 0 <= j < found@.len() && found@[j].digest@ == k by {
                lemma_store_contains(self.blobs@, k);
                let idx = choose|idx: int| 0 <= idx < self.blobs@.len() && self.blobs@[idx].0@ == k;
                lemma_store_index(self.blobs@, idx);
                assert(self.blobs@[idx].1@.repositories.is_empty());
            }
        }
        found
    }

    /// Manifests no repository references any more.
    pub fn get_orphaned_manifests(&self) -> (r: Vec<ManifestEntry>)
        requires
            self.wf(),
        ensures
            forall|j: int|
                0 <= j < r@.len() ==> self@.manifests.contains_key(#[trigger] r@[j].digest@)
                    && r@[j].manifest@ == self@.manifests[r@[j].digest@]
                    && r@[j].manifest@.repositories.is_empty(),
            forall|k: DigestView|
                self@.manifests.contains_key(k) && self@.manifests[k].repositories.is_empty()
                    ==> exists|j: int| 0 <= j < r@.len() && r@[j].digest@ == k,
            forall|j1: int, j2: int|
                0 <= j1 < j2 < r@.len() ==> (#[trigger] r@[j1]).digest@ != (#[trigger] r@[j2]).digest@,
    {
        let mut found: Vec<ManifestEntry> = Vec::new();
        let n = self.manifests.len();
        let mut i: usize = 0;
        while i < n
            invariant
                self.wf(),
                n == self.manifests@.len(),
                0 <= i <= n,
                forall|j: int|
                    0 <= j < found@.len() ==> self@.manifests.contains_key(
                        #[trigger] found@[j].digest@,
                    ) && found@[j].manifest@ == self@.manifests[found@[j].digest@]
                        && found@[j].manifest@.repositories.is_empty(),
                forall|idx: int|
                    0 <= idx < i && (#[trigger] self.manifests@[idx].1)@.repositories.is_empty()
                        ==> exists|j: int|
                        0 <= j < found@.len() && found@[j].digest@ == self.manifests@[idx].0@,
                forall|j: int|
                    0 <= j < found@.len() ==> exists|idx: int|
                        0 <= idx < i && (#[trigger] self.manifests@[idx]).0@ == (
                        #[trigger] found@[j]).digest@,
                forall|j1: int, j2: int|
                    0 <= j1 < j2 < found@.len() ==> (#[trigger] found@[j1]).digest@ != (
                    #[trigger] found@[j2]).digest@,
            decreases n - i,
        {
            proof {
                lemma_store_index(self.manifests@, i as int);
                if self.manifests@[i as int].1.repositories@.len() == 0 {
                    assert(repo_set(self.manifests@[i as int].1.repositories@)
                        =~= Set::<Seq<char>>::empty());
                } else {
                    assert(repo_set(self.manifests@[i as int].1.repositories@).contains(
                        self.manifests@[i as int].1.repositories@[0]@,
                    ));
                }
            }
            if self.manifests[i].1.repositories.len() == 0 {
                let ghost pre = found@;
                found.push(
                    ManifestEntry {
                        digest: self.manifests[i].0.duplicate(),
                        manifest: self.manifests[i].1.duplicate(),
                    },
                );
                proof {
                    assert forall|idx: int|
                        0 <= idx < i + 1 && (#[trigger] self.manifests@[idx].1)@.repositories.is_empty()
                            implies exists|j: int|
                        0 <= j < found@.len() && found@[j].digest@ == self.manifests@[idx].0@ by {
                        if idx < i {
                            let j = choose|j: int|
                                0 <= j < pre.len() && pre[j].digest@ == self.manifests@[idx].0@;
                            assert(found@[j].digest@ == self.manifests@[idx].0@);
                        } else {
                            assert(found@[found@.len() - 1].digest@ == self.manifests@[idx].0@);
                        }
                    }
                    assert forall|j: int| 0 <= j < found@.len() implies exists|idx: int|
                        0 <= idx < i + 1 && (#[trigger] self.manifests@[idx]).0@ == (
                        #[trigger] found@[j]).digest@ by {
                        if j < pre.len() {
                            let idx = choose|idx: int|
                                0 <= idx < i && (#[trigger] self.manifests@[idx]).0@
                                    == pre[j].digest@;
                            assert(found@[j] == pre[j]);
                            assert(self.manifests@[idx].0@ == found@[j].digest@);
                        } else {
                            assert(self.manifests@[i as int].0@ == found@[j].digest@);
                        }
                    }
                    assert forall|j1: int, j2: int|
                        0 <= j1 < j2 < found@.len() implies (#[trigger] found@[j1]).digest@ != (
                        #[trigger] found@[j2]).digest@ by {
                        if j2 < pre.len() {
                            assert(found@[j1] == pre[j1] && found@[j2] == pre[j2]);
                        } else {
                            assert(found@[j1] == pre[j1]);
                            if found@[j1].digest@ == found@[j2].digest@ {
                                let idx = choose|idx: int|
                                    0 <= idx < i && (#[trigger] self.manifests@[idx]).0@
                                        == pre[j1].digest@;
                                assert(self.manifests@[idx].0@ == self.manifests@[i as int].0@);
                                assert(false);
                            }
                        }
                    }
                }
            }
            i = i + 1;
        }
        proof {
            assert forall|k: DigestView|
                self@.manifests.contains_key(k) && self@.manifests[k].repositories.is_empty()
                    implies exists|j: int| 0 <= j < found@.len() && found@[j].digest@ == k by {
                lemma_store_contains(self.manifests@, k);
                let idx = choose|idx: int|
                    0 <= idx < self.manifests@.len() && self.manifests@[idx].0@ == k;
                lemma_store_index(self.manifests@, idx);
                assert(self.manifests@[idx].1@.repositories.is_empty());
            }
        }
        found
    }
}


/// Does this action announce that `location` now stores the blob `d`?
pub open spec fn is_blob_stored_at(a: ActionView, d: DigestView, location: Seq<char>) -> bool {
    a matches ActionView::BlobStored { digest, location: l, .. } && digest == d && l == location
}

/// Does this action announce that `location` now stores the manifest `d`?
pub open spec fn is_manifest_stored_at(a: ActionView, d: DigestView, location: Seq<char>) -> bool {
    a matches ActionView::ManifestStored { digest, location: l, .. } && digest == d && l
        == location
}

/// Every digest in `ds` was announced as stored at `id` by some entry
/// of the batch.
pub open spec fn only_announced_blobs(
    entries: Seq<RegistryAction>,
    ds: Seq<Digest>,
    id: Seq<char>,
) -> bool {
    forall|j: int|
        0 <= j < ds.len() ==> exists|idx: int|
            0 <= idx < entries.len() && is_blob_stored_at(entries[idx]@, (#[trigger] ds[j])@, id)
}

/// The manifest analogue of [`only_announced_blobs`].
pub open spec fn only_announced_manifests(
    entries: Seq<RegistryAction>,
    ds: Seq<Digest>,
    id: Seq<char>,
) -> bool {
    forall|j: int|
        0 <= j < ds.len() ==> exists|idx: int|
            0 <= idx < entries.len() && is_manifest_stored_at(
                entries[idx]@,
                (#[trigger] ds[j])@,
                id,
            )
}

/// Every blob announced as stored at `id` within the first `i` entries
/// has its digest in `ds`.
pub open spec fn all_announced_blobs(
    entries: Seq<RegistryAction>,
    i: int,
    ds: Seq<Digest>,
    id: Seq<char>,
) -> bool {
    forall|idx: int|
        0 <= idx < i ==> ((#[trigger] entries[idx]@) matches ActionView::BlobStored {
            digest,
            location,
            ..
        } ==> (location == id ==> exists|j: int| 0 <= j < ds.len() && ds[j]@ == digest))
}

/// The manifest analogue of [`all_announced_blobs`].
pub open spec fn all_announced_manifests(
    entries: Seq<RegistryAction>,
    i: int,
    ds: Seq<Digest>,
    id: Seq<char>,
) -> bool {
    forall|idx: int|
        0 <= idx < i ==> ((#[trigger] entries[idx]@) matches ActionView::ManifestStored {
            digest,
            location,
            ..
        } ==> (location == id ==> exists|j: int| 0 <= j < ds.len() && ds[j]@ == digest))
}

impl RegistryState {
    /// Walk a committed batch and collect the digests of blobs and
    /// manifests whose bytes have just been announced at this node: the
    /// driver wakes the corresponding waiters, and nothing else.
    #[verifier::rlimit(50)]
    pub fn dispatch_entries(&self, entries: &Vec<RegistryAction>) -> (r: (Vec<Digest>, Vec<Digest>))
        ensures
            only_announced_blobs(entries@, r.0@, self.spec_id()),
            only_announced_manifests(entries@, r.1@, self.spec_id()),
            all_announced_blobs(entries@, entries@.len() as int, r.0@, self.spec_id()),
            all_announced_manifests(entries@, entries@.len() as int, r.1@, self.spec_id()),
    {
        let mut blobs: Vec<Digest> = Vec::new();
        let mut manifests: Vec<Digest> = Vec::new();
        let n = entries.len();
        let mut i: usize = 0;
        while i < n
            invariant
                n == entries@.len(),
                0 <= i <= n,
                only_announced_blobs(entries@, blobs@, self.spec_id()),
                only_announced_manifests(entries@, manifests@, self.spec_id()),
                all_announced_blobs(entries@, i as int, blobs@, self.spec_id()),
                all_announced_manifests(entries@, i as int, manifests@, self.spec_id()),
            decreases n - i,
        {
            let ghost pre_b = blobs@;
            let ghost pre_m = manifests@;
            match &entries[i] {
                RegistryAction::BlobStored { digest, location, .. } => {
                    if *location == self.machine_identifier {
                        blobs.push(digest.duplicate());
                        proof {
                            assert forall|j: int| 0 <= j < blobs@.len() implies exists|idx: int|
                                0 <= idx < entries@.len() && is_blob_stored_at(
                                    entries@[idx]@,
                                    (#[trigger] blobs@[j])@,
                                    self.spec_id(),
                                ) by {
                                if j < pre_b.len() {
                                    assert(blobs@[j] == pre_b[j]);
                                } else {
                                    assert(is_blob_stored_at(
                                        entries@[i as int]@,
                                        blobs@[j]@,
                                        self.spec_id(),
                                    ));
                                }
                            }
                        }
                    }
                },
                RegistryAction::ManifestStored { digest, location, .. } => {
                    if *location == self.machine_identifier {
                        manifests.push(digest.duplicate());
                        proof {
                            assert forall|j: int| 0 <= j < manifests@.len() implies exists|idx: int|
                                0 <= idx < entries@.len() && is_manifest_stored_at(
                                    entries@[idx]@,
                                    (#[trigger] manifests@[j])@,
                                    self.spec_id(),
                                ) by {
                                if j < pre_m.len() {
                                    assert(manifests@[j] == pre_m[j]);
                                } else {
                                    assert(is_manifest_stored_at(
                                        entries@[i as int]@,
                                        manifests@[j]@,
                                        self.spec_id(),
                                    ));
                                }
                            }
                        }
                    }
                },
                _ => {},
            }
            proof {
                assert forall|idx: int|
                    0 <= idx < i + 1 implies ((#[trigger] entries@[idx]@) matches
                        ActionView::BlobStored { digest, location, .. } ==> (location
                        == self.spec_id() ==> exists|j: int| 0 <= j < blobs@.len() && blobs@[j]@
                        == digest)) by {
                    match entries@[idx]@ {
                        ActionView::BlobStored { digest, location, .. } => {
                            if location == self.spec_id() {
                                if idx < i {
                                    let j = choose|j: int|
                                        0 <= j < pre_b.len() && pre_b[j]@ == digest;
                                    assert(blobs@[j]@ == digest);
                                } else {
                                    assert(blobs@[blobs@.len() - 1]@ == digest);
                                }
                            }
                        },
                        _ => {},
                    }
                }
                assert forall|idx: int|
                    0 <= idx < i + 1 implies ((#[trigger] entries@[idx]@) matches
                        ActionView::ManifestStored { digest, location, .. } ==> (location
                        == self.spec_id() ==> exists|j: int| 0 <= j < manifests@.len()
                        && manifests@[j]@ == digest)) by {
                    match entries@[idx]@ {
                        ActionView::ManifestStored { digest, location, .. } => {
                            if location == self.spec_id() {
                                if idx < i {
                                    let j = choose|j: int|
                                        0 <= j < pre_m.len() && pre_m[j]@ == digest;
                                    assert(manifests@[j]@ == digest);
                                } else {
                                    assert(manifests@[manifests@.len() - 1]@ == digest);
                                }
                            }
                        },
                        _ => {},
                    }
                }
            }
            i = i + 1;
        }
        (blobs, manifests)
    }
}

/// The graph every node starts from.
pub open spec fn empty_state() -> StateView {
    StateView {
        blobs: Map::empty(),
        manifests: Map::empty(),
        tags: Map::empty(),
    }
}

/// Log determinism: two nodes that have applied the same committed
/// prefix of the log, each starting from the empty graph, hold the same
/// graph.  `apply_actions` is a mathematical function of the prefix, so
/// the graphs coincide entirely.
pub proof fn lemma_log_determinism(a: StateView, b: StateView, prefix: Seq<ActionView>)
    requires
        a == apply_actions(empty_state(), prefix),
        b == apply_actions(empty_state(), prefix),
    ensures
        a == b,
        a.blobs =~= b.blobs,
        a.manifests =~= b.manifests,
        a.tags =~= b.tags,
{
}

/// Tag round trip: a `HashTagged` binds its tag to its digest, so the
/// very next lookup of `(repository, tag)` yields that digest.
pub proof fn lemma_tag_round_trip(
    s: StateView,
    timestamp: int,
    user: Seq<char>,
    digest: DigestView,
    repository: Seq<char>,
    tag: Seq<char>,
)
    ensures
        apply_action(
            s,
            ActionView::HashTagged { timestamp, user, digest, repository, tag },
        ).tags.contains_key(TagKey { repository, tag }),
        apply_action(
            s,
            ActionView::HashTagged { timestamp, user, digest, repository, tag },
        ).tags[TagKey { repository, tag }] == digest,
{
}

/// Applying the same `BlobStored` twice changes nothing beyond the
/// first application: location sets are sets, and insertion is
/// idempotent.
pub proof fn lemma_blob_stored_idempotent(
    s: StateView,
    timestamp: int,
    user: Seq<char>,
    digest: DigestView,
    location: Seq<char>,
)
    ensures
        apply_action(
            apply_action(s, ActionView::BlobStored { timestamp, user, digest, location }),
            ActionView::BlobStored { timestamp, user, digest, location },
        ) == apply_action(s, ActionView::BlobStored { timestamp, user, digest, location }),
{
    let a = ActionView::BlobStored { timestamp, user, digest, location };
    let s1 = apply_action(s, a);
    let s2 = apply_action(s1, a);
    assert(s1.blobs[digest].locations.insert(location) =~= s1.blobs[digest].locations);
    assert(s2.blobs[digest] =~~= s1.blobs[digest]);
    assert(s2.blobs =~~= s1.blobs);
    assert(s2 =~~= s1);
}

/// The manifest analogue of [`lemma_blob_stored_idempotent`].
pub proof fn lemma_manifest_stored_idempotent(
    s: StateView,
    timestamp: int,
    user: Seq<char>,
    digest: DigestView,
    location: Seq<char>,
)
    ensures
        apply_action(
            apply_action(s, ActionView::ManifestStored { timestamp, user, digest, location }),
            ActionView::ManifestStored { timestamp, user, digest, location },
        ) == apply_action(s, ActionView::ManifestStored { timestamp, user, digest, location }),
{
    let a = ActionView::ManifestStored { timestamp, user, digest, location };
    let s1 = apply_action(s, a);
    let s2 = apply_action(s1, a);
    assert(s1.manifests[digest].locations.insert(location) =~= s1.manifests[digest].locations);
    assert(s2.manifests[digest] =~~= s1.manifests[digest]);
    assert(s2.manifests =~~= s1.manifests);
    assert(s2 =~~= s1);
}

/// Tags are never dropped by the state machine: a tag whose target
/// entity vanishes dangles, and consumers recheck, but no action
/// removes a binding — only a later `HashTagged` rewrites it.
pub proof fn lemma_tags_never_dropped(s: StateView, a: ActionView)
    ensures
        forall|k: TagKey|
            s.tags.contains_key(k) ==> apply_action(s, a).tags.contains_key(k),
{
}

/// Every entity of the map is referenced by a repository or stored at a
/// node.
pub open spec fn occupied(m: Map<DigestView, EntityView>) -> bool {
    forall|k: DigestView| m.contains_key(k) ==> keeps_entity(#[trigger] m[k])
}

/// An entity exists only while its repository set or its location set
/// is non-empty: applying any action preserves this, because removals
/// drop an entity the moment both sets empty out, and every creation
/// puts a member into one of the sets.
pub proof fn lemma_apply_keeps_occupancy(s: StateView, a: ActionView)
    requires
        occupied(s.blobs),
        occupied(s.manifests),
    ensures
        occupied(apply_action(s, a).blobs),
        occupied(apply_action(s, a).manifests),
{
    let s1 = apply_action(s, a);
    match a {
        ActionView::BlobMounted { timestamp, digest, repository, .. } => {
            assert(s1.blobs[digest].repositories.contains(repository));
        },
        ActionView::ManifestMounted { timestamp, digest, repository, .. } => {
            assert(s1.manifests[digest].repositories.contains(repository));
        },
        ActionView::BlobStored { timestamp, digest, location, .. } => {
            assert(s1.blobs[digest].locations.contains(location));
        },
        ActionView::ManifestStored { timestamp, digest, location, .. } => {
            assert(s1.manifests[digest].locations.contains(location));
        },
        _ => {},
    }
}

} // verus!



