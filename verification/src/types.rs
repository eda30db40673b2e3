//! Identifiers of the registry: content digests and repository names.
use vstd::prelude::*;

verus! {

/// Mathematical value of a [`Digest`]: the algorithm name and the hex
/// body, kept apart so that two digests are equal exactly when both
/// components are.
pub ghost struct DigestView {
    pub algo: Seq<char>,
    pub hash: Seq<char>,
}

/// A content address, written canonically as `<algo>:<hex>`, in practice
/// `sha256:<64 hex digits>`.
#[derive(Debug, Clone, Hash, PartialOrd, Ord)]
pub struct Digest {
    pub algo: String,
    pub hash: String,
}

impl View for Digest {
    type V = DigestView;

    open spec fn view(&self) -> DigestView {
        DigestView { algo: self.algo@, hash: self.hash@ }
    }
}

impl PartialEq for Digest {
    fn eq(&self, other: &Self) -> (r: bool)
        ensures
            r == (self@ == other@),
    {
        let r = self.algo == other.algo && self.hash == other.hash;
        proof {
            if self.algo@ == other.algo@ && self.hash@ == other.hash@ {
                assert(self@ == other@);
            }
        }
        r
    }
}

impl Eq for Digest {

}

impl vstd::std_specs::cmp::PartialEqSpecImpl for Digest {
    open spec fn obeys_eq_spec() -> bool {
        true
    }

    open spec fn eq_spec(&self, other: &Self) -> bool {
        self@ == other@
    }
}

/// Index of the first `:` in `s`, or `s.len()` when there is none.
pub open spec fn first_colon(s: Seq<char>) -> int
    decreases s.len(),
{
    if s.len() == 0 {
        0
    } else if s[0] == ':' {
        0
    } else {
        1 + first_colon(s.skip(1))
    }
}

proof fn lemma_first_colon(s: Seq<char>)
    ensures
        0 <= first_colon(s) <= s.len(),
        first_colon(s) < s.len() ==> s[first_colon(s)] == ':',
        forall|j: int| 0 <= j < first_colon(s) ==> s[j] != ':',
    decreases s.len(),
{
    if s.len() == 0 {
    } else if s[0] == ':' {
    } else {
        lemma_first_colon(s.skip(1));
        assert forall|j: int| 0 <= j < first_colon(s) implies s[j] != ':' by {
            if j > 0 {
                assert(s.skip(1)[j - 1] == s[j]);
            }
        }
        assert(first_colon(s) < s.len() ==> s.skip(1)[first_colon(s) - 1] == s[first_colon(s)]);
    }
}

/// A string parses as a digest when it is ASCII and has the shape
/// `<algo>:<rest>` with a non-empty algorithm and a non-empty rest.
pub open spec fn parses_as_digest(s: &str) -> bool {
    &&& s.is_ascii()
    &&& 0 < first_colon(s@)
    &&& first_colon(s@) + 1 < s@.len()
}

/// The digest a valid string denotes: what stands before the first `:`
/// and what stands after it.
pub open spec fn spec_parse_digest(s: &str) -> DigestView {
    DigestView {
        algo: s@.subrange(0, first_colon(s@)),
        hash: s@.subrange(first_colon(s@) + 1, s@.len() as int),
    }
}

impl Digest {
    /// A digest is well formed when both parts are non-empty and the
    /// algorithm holds no `:`, so that the canonical string determines it.
    pub open spec fn wf(&self) -> bool {
        &&& self.algo@.len() > 0
        &&& self.hash@.len() > 0
        &&& self.algo.is_ascii()
        &&& self.hash.is_ascii()
        &&& forall|i: int| 0 <= i < self.algo@.len() ==> self.algo@[i] != ':'
    }

    /// Parse the canonical form `<algo>:<rest>`, splitting at the first `:`.
    pub fn parse(s: &str) -> (r: Result<Digest, ()>)
        ensures
            r is Ok <==> parses_as_digest(s),
            r matches Ok(d) ==> d@ == spec_parse_digest(s) && d.wf(),
    {
        proof {
            lemma_first_colon(s@);
        }
        if !s.is_ascii() {
            return Err(());
        }
        let len = s.unicode_len();
        let mut i: usize = 0;
        while i < len && s.get_char(i) != ':'
            invariant
                s.is_ascii(),
                len == s@.len(),
                0 <= i <= len,
                forall|j: int| 0 <= j < i ==> s@[j] != ':',
            decreases len - i,
        {
            i = i + 1;
        }
        proof {
            lemma_first_colon(s@);
            assert(i as int == first_colon(s@));
        }
        if i == 0 || i >= len || i + 1 >= len {
            return Err(());
        }
        let algo = s.substring_ascii(0, i);
        let hash = s.substring_ascii(i + 1, len);
        Ok(Digest { algo: algo.to_owned(), hash: hash.to_owned() })
    }
}

impl core::str::FromStr for Digest {
    type Err = ();

    fn from_str(s: &str) -> Result<Self, Self::Err> {
        Digest::parse(s)
    }
}

/// An opaque namespace identifier.
#[derive(Debug, Clone, Hash, PartialOrd, Ord)]
pub struct RepositoryName {
    pub name: String,
}

impl View for RepositoryName {
    type V = Seq<char>;

    open spec fn view(&self) -> Seq<char> {
        self.name@
    }
}

impl PartialEq for RepositoryName {
    fn eq(&self, other: &Self) -> (r: bool)
        ensures
            r == (self@ == other@),
    {
        self.name == other.name
    }
}

impl Eq for RepositoryName {

}

impl vstd::std_specs::cmp::PartialEqSpecImpl for RepositoryName {
    open spec fn obeys_eq_spec() -> bool {
        true
    }

    open spec fn eq_spec(&self, other: &Self) -> bool {
        self@ == other@
    }
}

impl RepositoryName {
    /// The namespace as text; every string names a repository.
    pub fn to_string(&self) -> (r: String)
        ensures
            r@ == self@,
    {
        self.name.clone()
    }
}

impl core::str::FromStr for RepositoryName {
    type Err = ();

    fn from_str(s: &str) -> Result<Self, Self::Err> {
        Ok(RepositoryName { name: s.to_owned() })
    }
}

/// Mathematical value of a [`RegistryAction`].
pub ghost enum ActionView {
    Empty,
    BlobMounted { timestamp: int, user: Seq<char>, digest: DigestView, repository: Seq<char> },
    BlobUnmounted { timestamp: int, user: Seq<char>, digest: DigestView, repository: Seq<char> },
    BlobStored { timestamp: int, user: Seq<char>, digest: DigestView, location: Seq<char> },
    BlobUnstored { timestamp: int, user: Seq<char>, digest: DigestView, location: Seq<char> },
    BlobStat { timestamp: int, digest: DigestView, size: u64 },
    BlobInfo {
        timestamp: int,
        digest: DigestView,
        dependencies: Seq<DigestView>,
        content_type: Seq<char>,
    },
    ManifestMounted { timestamp: int, user: Seq<char>, digest: DigestView, repository: Seq<char> },
    ManifestUnmounted {
        timestamp: int,
        user: Seq<char>,
        digest: DigestView,
        repository: Seq<char>,
    },
    ManifestStored { timestamp: int, user: Seq<char>, digest: DigestView, location: Seq<char> },
    ManifestUnstored { timestamp: int, user: Seq<char>, digest: DigestView, location: Seq<char> },
    ManifestStat { timestamp: int, digest: DigestView, size: u64 },
    ManifestInfo {
        timestamp: int,
        digest: DigestView,
        dependencies: Seq<DigestView>,
        content_type: Seq<char>,
    },
    HashTagged {
        timestamp: int,
        user: Seq<char>,
        digest: DigestView,
        repository: Seq<char>,
        tag: Seq<char>,
    },
}

/// The one unit of state change: a tagged record appended to the
/// replicated log and applied by every node's state machine.  Timestamps
/// are seconds since the Unix epoch and travel inside the action, so
/// that applying a log never consults a local clock.
#[derive(Debug, Clone, PartialEq, Eq, PartialOrd, Ord)]
pub enum RegistryAction {
    Empty,
    BlobMounted { timestamp: i64, user: String, digest: Digest, repository: RepositoryName },
    BlobUnmounted { timestamp: i64, user: String, digest: Digest, repository: RepositoryName },
    BlobStored { timestamp: i64, user: String, digest: Digest, location: String },
    BlobUnstored { timestamp: i64, user: String, digest: Digest, location: String },
    BlobStat { timestamp: i64, digest: Digest, size: u64 },
    BlobInfo { timestamp: i64, digest: Digest, dependencies: Vec<Digest>, content_type: String },
    ManifestMounted { timestamp: i64, user: String, digest: Digest, repository: RepositoryName },
    ManifestUnmounted { timestamp: i64, user: String, digest: Digest, repository: RepositoryName },
    ManifestStored { timestamp: i64, user: String, digest: Digest, location: String },
    ManifestUnstored { timestamp: i64, user: String, digest: Digest, location: String },
    ManifestStat { timestamp: i64, digest: Digest, size: u64 },
    ManifestInfo {
        timestamp: i64,
        digest: Digest,
        dependencies: Vec<Digest>,
        content_type: String,
    },
    HashTagged { timestamp: i64, user: String, digest: Digest, repository: RepositoryName, tag: String },
}

/// Views of a sequence of digests, element by element.
pub open spec fn digests_view(s: Seq<Digest>) -> Seq<DigestView> {
    s.map(|i: int, d: Digest| d@)
}

impl View for RegistryAction {
    type V = ActionView;

    open spec fn view(&self) -> ActionView {
        match *self {
            RegistryAction::Empty => ActionView::Empty,
            RegistryAction::BlobMounted { timestamp, ref user, ref digest, ref repository } => ActionView::BlobMounted {
                timestamp: timestamp as int,
                user: user@,
                digest: digest@,
                repository: repository@,
            },
            RegistryAction::BlobUnmounted { timestamp, ref user, ref digest, ref repository } => ActionView::BlobUnmounted {
                timestamp: timestamp as int,
                user: user@,
                digest: digest@,
                repository: repository@,
            },
            RegistryAction::BlobStored { timestamp, ref user, ref digest, ref location } => ActionView::BlobStored {
                timestamp: timestamp as int,
                user: user@,
                digest: digest@,
                location: location@,
            },
            RegistryAction::BlobUnstored { timestamp, ref user, ref digest, ref location } => ActionView::BlobUnstored {
                timestamp: timestamp as int,
                user: user@,
                digest: digest@,
                location: location@,
            },
            RegistryAction::BlobStat { timestamp, ref digest, size } => ActionView::BlobStat {
                timestamp: timestamp as int,
                digest: digest@,
                size: size,
            },
            RegistryAction::BlobInfo { timestamp, ref digest, ref dependencies, ref content_type } => ActionView::BlobInfo {
                timestamp: timestamp as int,
                digest: digest@,
                dependencies: digests_view(dependencies@),
                content_type: content_type@,
            },
            RegistryAction::ManifestMounted { timestamp, ref user, ref digest, ref repository } => ActionView::ManifestMounted {
                timestamp: timestamp as int,
                user: user@,
                digest: digest@,
                repository: repository@,
            },
            RegistryAction::ManifestUnmounted { timestamp, ref user, ref digest, ref repository } => ActionView::ManifestUnmounted {
                timestamp: timestamp as int,
                user: user@,
                digest: digest@,
                repository: repository@,
            },
            RegistryAction::ManifestStored { timestamp, ref user, ref digest, ref location } => ActionView::ManifestStored {
                timestamp: timestamp as int,
                user: user@,
                digest: digest@,
                location: location@,
            },
            RegistryAction::ManifestUnstored { timestamp, ref user, ref digest, ref location } => ActionView::ManifestUnstored {
                timestamp: timestamp as int,
                user: user@,
                digest: digest@,
                location: location@,
            },
            RegistryAction::ManifestStat { timestamp, ref digest, size } => ActionView::ManifestStat {
                timestamp: timestamp as int,
                digest: digest@,
                size: size,
            },
            RegistryAction::ManifestInfo { timestamp, ref digest, ref dependencies, ref content_type } => ActionView::ManifestInfo {
                timestamp: timestamp as int,
                digest: digest@,
                dependencies: digests_view(dependencies@),
                content_type: content_type@,
            },
            RegistryAction::HashTagged { timestamp, ref user, ref digest, ref repository, ref tag } => ActionView::HashTagged {
                timestamp: timestamp as int,
                user: user@,
                digest: digest@,
                repository: repository@,
                tag: tag@,
            },
        }
    }
}

/// Mathematical value of an [`Entity`]: membership sets carry no order
/// and no duplicates.
pub ghost struct EntityView {
    pub created: int,
    pub updated: int,
    pub content_type: Option<Seq<char>>,
    pub size: Option<u64>,
    pub dependencies: Option<Seq<DigestView>>,
    pub locations: Set<Seq<char>>,
    pub repositories: Set<Seq<char>>,
}

/// What the cluster knows of one blob or manifest: metadata plus the
/// nodes that hold its bytes and the repositories that reference it.
#[derive(Debug, Clone, PartialEq, Eq)]
pub struct Entity {
    pub created: i64,
    pub updated: i64,
    pub content_type: Option<String>,
    pub size: Option<u64>,
    pub dependencies: Option<Vec<Digest>>,
    pub locations: Vec<String>,
    pub repositories: Vec<RepositoryName>,
}

/// Set of the views of a vector of strings.
pub open spec fn string_set(s: Seq<String>) -> Set<Seq<char>> {
    Set::new(|c: Seq<char>| exists|i: int| 0 <= i < s.len() && s[i]@ == c)
}

/// Set of the views of a vector of repository names.
pub open spec fn repo_set(s: Seq<RepositoryName>) -> Set<Seq<char>> {
    Set::new(|c: Seq<char>| exists|i: int| 0 <= i < s.len() && s[i]@ == c)
}

impl View for Entity {
    type V = EntityView;

    open spec fn view(&self) -> EntityView {
        EntityView {
            created: self.created as int,
            updated: self.updated as int,
            content_type: match self.content_type {
                Some(ref c) => Some(c@),
                None => None,
            },
            size: self.size,
            dependencies: match self.dependencies {
                Some(ref d) => Some(digests_view(d@)),
                None => None,
            },
            locations: string_set(self.locations@),
            repositories: repo_set(self.repositories@),
        }
    }
}

impl Entity {
    /// The membership vectors hold no duplicates, so that removing one
    /// occurrence removes the member.
    pub open spec fn wf(&self) -> bool {
        &&& forall|i: int, j: int|
            0 <= i < j < self.locations@.len() ==> self.locations@[i]@ != self.locations@[j]@
        &&& forall|i: int, j: int|
            0 <= i < j < self.repositories@.len() ==> self.repositories@[i]@
                != self.repositories@[j]@
    }
}

impl Digest {
    /// An owned copy with the same value.
    pub fn duplicate(&self) -> (r: Digest)
        ensures
            r@ == self@,
    {
        Digest { algo: self.algo.clone(), hash: self.hash.clone() }
    }
}

impl RepositoryName {
    /// An owned copy with the same value.
    pub fn duplicate(&self) -> (r: RepositoryName)
        ensures
            r@ == self@,
    {
        RepositoryName { name: self.name.clone() }
    }
}

/// An owned copy of a digest list with the same values.
pub fn duplicate_digests(v: &Vec<Digest>) -> (r: Vec<Digest>)
    ensures
        digests_view(r@) == digests_view(v@),
{
    let mut r: Vec<Digest> = Vec::new();
    let mut i: usize = 0;
    while i < v.len()
        invariant
            0 <= i <= v@.len(),
            r@.len() == i,
            forall|j: int| 0 <= j < i ==> r@[j]@ == v@[j]@,
        decreases v@.len() - i,
    {
        r.push(v[i].duplicate());
        i = i + 1;
    }
    proof {
        assert(digests_view(r@) =~= digests_view(v@));
    }
    r
}

/// An owned copy of a string list with the same values.
pub fn duplicate_strings(v: &Vec<String>) -> (r: Vec<String>)
    ensures
        r@.len() == v@.len(),
        forall|j: int| 0 <= j < v@.len() ==> r@[j]@ == v@[j]@,
{
    let mut r: Vec<String> = Vec::new();
    let mut i: usize = 0;
    while i < v.len()
        invariant
            0 <= i <= v@.len(),
            r@.len() == i,
            forall|j: int| 0 <= j < i ==> r@[j]@ == v@[j]@,
        decreases v@.len() - i,
    {
        r.push(v[i].clone());
        i = i + 1;
    }
    r
}

/// An owned copy of a repository list with the same values.
pub fn duplicate_repositories(v: &Vec<RepositoryName>) -> (r: Vec<RepositoryName>)
    ensures
        r@.len() == v@.len(),
        forall|j: int| 0 <= j < v@.len() ==> r@[j]@ == v@[j]@,
{
    let mut r: Vec<RepositoryName> = Vec::new();
    let mut i: usize = 0;
    while i < v.len()
        invariant
            0 <= i <= v@.len(),
            r@.len() == i,
            forall|j: int| 0 <= j < i ==> r@[j]@ == v@[j]@,
        decreases v@.len() - i,
    {
        r.push(v[i].duplicate());
        i = i + 1;
    }
    r
}

impl Entity {
    /// An owned copy whose mathematical value is the same.
    pub fn duplicate(&self) -> (r: Entity)
        ensures
            r@ == self@,
    {
        let content_type = match &self.content_type {
            Some(c) => Some(c.clone()),
            None => None,
        };
        let dependencies = match &self.dependencies {
            Some(d) => Some(duplicate_digests(d)),
            None => None,
        };
        let r = Entity {
            created: self.created,
            updated: self.updated,
            content_type,
            size: self.size,
            dependencies,
            locations: duplicate_strings(&self.locations),
            repositories: duplicate_repositories(&self.repositories),
        };
        proof {
            assert(string_set(r.locations@) =~= string_set(self.locations@));
            assert(repo_set(r.repositories@) =~= repo_set(self.repositories@));
            assert(r@ =~= self@);
        }
        r
    }
}

/// A blob entity; blobs and manifests share one shape.
pub type Blob = Entity;

/// A manifest entity; blobs and manifests share one shape.
pub type Manifest = Entity;

/// An orphaned blob paired with its digest, as the garbage collector
/// walks them.
#[derive(Debug, Clone)]
pub struct BlobEntry {
    pub digest: Digest,
    pub blob: Blob,
}

/// An orphaned manifest paired with its digest.
#[derive(Debug, Clone)]
pub struct ManifestEntry {
    pub digest: Digest,
    pub manifest: Manifest,
}


impl RegistryAction {
    /// An owned copy with the same mathematical value.
    pub fn duplicate(&self) -> (r: RegistryAction)
        ensures
            r@ == self@,
    {
        match self {
            RegistryAction::Empty => RegistryAction::Empty,
            RegistryAction::BlobMounted { timestamp, user, digest, repository } => RegistryAction::BlobMounted {
                timestamp: *timestamp,
                user: user.clone(),
                digest: digest.duplicate(),
                repository: repository.duplicate(),
            },
            RegistryAction::BlobUnmounted { timestamp, user, digest, repository } => RegistryAction::BlobUnmounted {
                timestamp: *timestamp,
                user: user.clone(),
                digest: digest.duplicate(),
                repository: repository.duplicate(),
            },
            RegistryAction::BlobStored { timestamp, user, digest, location } => RegistryAction::BlobStored {
                timestamp: *timestamp,
                user: user.clone(),
                digest: digest.duplicate(),
                location: location.clone(),
            },
            RegistryAction::BlobUnstored { timestamp, user, digest, location } => RegistryAction::BlobUnstored {
                timestamp: *timestamp,
                user: user.clone(),
                digest: digest.duplicate(),
                location: location.clone(),
            },
            RegistryAction::BlobStat { timestamp, digest, size } => RegistryAction::BlobStat {
                timestamp: *timestamp,
                digest: digest.duplicate(),
                size: *size,
            },
            RegistryAction::BlobInfo { timestamp, digest, dependencies, content_type } => RegistryAction::BlobInfo {
                timestamp: *timestamp,
                digest: digest.duplicate(),
                dependencies: duplicate_digests(dependencies),
                content_type: content_type.clone(),
            },
            RegistryAction::ManifestMounted { timestamp, user, digest, repository } => RegistryAction::ManifestMounted {
                timestamp: *timestamp,
                user: user.clone(),
                digest: digest.duplicate(),
                repository: repository.duplicate(),
            },
            RegistryAction::ManifestUnmounted { timestamp, user, digest, repository } => RegistryAction::ManifestUnmounted {
                timestamp: *timestamp,
                user: user.clone(),
                digest: digest.duplicate(),
                repository: repository.duplicate(),
            },
            RegistryAction::ManifestStored { timestamp, user, digest, location } => RegistryAction::ManifestStored {
                timestamp: *timestamp,
                user: user.clone(),
                digest: digest.duplicate(),
                location: location.clone(),
            },
            RegistryAction::ManifestUnstored { timestamp, user, digest, location } => RegistryAction::ManifestUnstored {
                timestamp: *timestamp,
                user: user.clone(),
                digest: digest.duplicate(),
                location: location.clone(),
            },
            RegistryAction::ManifestStat { timestamp, digest, size } => RegistryAction::ManifestStat {
                timestamp: *timestamp,
                digest: digest.duplicate(),
                size: *size,
            },
            RegistryAction::ManifestInfo { timestamp, digest, dependencies, content_type } => RegistryAction::ManifestInfo {
                timestamp: *timestamp,
                digest: digest.duplicate(),
                dependencies: duplicate_digests(dependencies),
                content_type: content_type.clone(),
            },
            RegistryAction::HashTagged { timestamp, user, digest, repository, tag } => RegistryAction::HashTagged {
                timestamp: *timestamp,
                user: user.clone(),
                digest: digest.duplicate(),
                repository: repository.duplicate(),
                tag: tag.clone(),
            },
        }
    }
}

} // verus!
