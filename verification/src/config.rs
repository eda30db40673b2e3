//! Configuration of one node: its name, its storage root, the
//! listening addresses, and the statically configured set of peers.
//! Loading these values from files or the environment is the shell's
//! business; the logic here is what the core itself depends on, above
//! all the node-identifier convention `<name>-<integer>`.
use vstd::prelude::*;

verus! {

/// Where the consensus listener binds, and its optional TLS material.
#[derive(Debug, Clone, PartialEq, Eq)]
pub struct TlsConfig {
    pub key: String,
    pub chain: String,
}

/// Consensus listener address.
#[derive(Debug, Clone, PartialEq, Eq)]
pub struct RaftConfig {
    pub address: String,
    pub port: u16,
    pub tls: Option<TlsConfig>,
}

impl Default for RaftConfig {
    fn default() -> (r: Self)
        ensures
            r.address@ == "0.0.0.0"@,
            r.port == 8080,
            r.tls is None,
    {
        Self { address: "0.0.0.0".to_owned(), port: 8080, tls: None }
    }
}

/// Registry listener address.
#[derive(Debug, Clone, PartialEq, Eq)]
pub struct RegistryConfig {
    pub address: String,
    pub port: u16,
}

impl Default for RegistryConfig {
    fn default() -> (r: Self)
        ensures
            r.address@ == "0.0.0.0"@,
            r.port == 8000,
    {
        Self { address: "0.0.0.0".to_owned(), port: 8000 }
    }
}

/// Metrics listener address.
#[derive(Debug, Clone, PartialEq, Eq)]
pub struct PrometheusConfig {
    pub address: String,
    pub port: u16,
}

impl Default for PrometheusConfig {
    fn default() -> (r: Self)
        ensures
            r.address@ == "0.0.0.0"@,
            r.port == 7080,
    {
        Self { address: "0.0.0.0".to_owned(), port: 7080 }
    }
}

/// External token-issuer knobs; the key is kept as the path it was
/// configured with, and reading it is the shell's business.
#[derive(Debug, Clone, PartialEq, Eq)]
pub struct TokenConfig {
    pub issuer: String,
    pub service: String,
    pub realm: String,
    pub public_key: String,
}

/// Background scrubber toggle.
#[derive(Debug, Clone, PartialEq, Eq)]
pub struct ScrubberConfig {
    pub enabled: bool,
}

impl Default for ScrubberConfig {
    fn default() -> (r: Self)
        ensures
            !r.enabled,
    {
        Self { enabled: false }
    }
}

/// Crash-reporting endpoint; purely an external collaborator.
#[derive(Debug, Clone, PartialEq, Eq)]
pub struct SentryConfig {
    pub endpoint: String,
}

/// One statically configured peer and the two addresses it serves.
#[derive(Debug, Clone, PartialEq, Eq)]
pub struct PeerConfig {
    pub name: String,
    pub raft: RaftConfig,
    pub registry: RegistryConfig,
}

/// Everything a node is told at startup.
#[derive(Debug, Clone)]
pub struct Configuration {
    pub identifier: String,
    pub raft: RaftConfig,
    pub registry: RegistryConfig,
    pub prometheus: PrometheusConfig,
    pub token_server: Option<TokenConfig>,
    pub storage: String,
    pub peers: Vec<PeerConfig>,
    pub scrubber: ScrubberConfig,
    pub sentry: Option<SentryConfig>,
}

impl Default for Configuration {
    fn default() -> (r: Self)
        ensures
            r.identifier@ == "localhost-0"@,
            r.storage@ == "var"@,
            r.peers@.len() == 0,
            r.token_server is None,
            r.sentry is None,
    {
        Self {
            identifier: "localhost-0".to_owned(),
            raft: RaftConfig::default(),
            registry: RegistryConfig::default(),
            prometheus: PrometheusConfig::default(),
            token_server: None,
            storage: "var".to_owned(),
            peers: Vec::new(),
            scrubber: ScrubberConfig::default(),
            sentry: None,
        }
    }
}

/// Why an identifier yields no node id.
#[derive(Debug, Clone, PartialEq, Eq)]
pub enum ConfigError {
    /// The identifier holds no `-`.
    InvalidIdentifier,
    /// What follows the last `-` is not an integer the id type holds.
    NotANumber,
}

/// Is this a decimal digit?
pub open spec fn is_digit(c: char) -> bool {
    '0' <= c <= '9'
}

/// Value of one decimal digit.
pub open spec fn digit_val(c: char) -> int {
    c as int - '0' as int
}

/// Value of a decimal numeral, most significant digit first.
pub open spec fn dec_val(s: Seq<char>) -> int
    decreases s.len(),
{
    if s.len() == 0 {
        0
    } else {
        dec_val(s.drop_last()) * 10 + digit_val(s.last())
    }
}

/// Index of the last `-` in `s`, or `-1` when there is none.
pub open spec fn last_dash(s: Seq<char>) -> int
    decreases s.len(),
{
    if s.len() == 0 {
        -1
    } else if s.last() == '-' {
        s.len() - 1
    } else {
        last_dash(s.drop_last())
    }
}

proof fn lemma_last_dash(s: Seq<char>)
    ensures
        -1 <= last_dash(s) < s.len(),
        last_dash(s) >= 0 ==> s[last_dash(s)] == '-',
        forall|j: int| last_dash(s) < j < s.len() ==> s[j] != '-',
    decreases s.len(),
{
    if s.len() > 0 && s.last() != '-' {
        lemma_last_dash(s.drop_last());
        assert forall|j: int| last_dash(s) < j < s.len() implies s[j] != '-' by {
            if j < s.len() - 1 {
                assert(s.drop_last()[j] == s[j]);
            }
        }
        if last_dash(s) >= 0 {
            assert(s.drop_last()[last_dash(s)] == s[last_dash(s)]);
        }
    }
}

proof fn lemma_dec_val_bounds(s: Seq<char>)
    requires
        forall|j: int| 0 <= j < s.len() ==> is_digit(#[trigger] s[j]),
    ensures
        dec_val(s) >= 0,
        forall|i: int| 0 <= i <= s.len() ==> dec_val(#[trigger] s.take(i)) <= dec_val(s),
    decreases s.len(),
{
    if s.len() == 0 {
        assert forall|i: int| 0 <= i <= s.len() implies dec_val(#[trigger] s.take(i)) <= dec_val(
            s,
        ) by {
            assert(s.take(i) =~= s);
        }
    } else {
        assert(forall|j: int|
            0 <= j < s.drop_last().len() ==> is_digit(#[trigger] s.drop_last()[j]));
        lemma_dec_val_bounds(s.drop_last());
        assert(is_digit(s.last()));
        assert(dec_val(s) >= dec_val(s.drop_last()));
        assert forall|i: int| 0 <= i <= s.len() implies dec_val(#[trigger] s.take(i)) <= dec_val(
            s,
        ) by {
            if i == s.len() {
                assert(s.take(i) =~= s);
            } else {
                assert(s.take(i) =~= s.drop_last().take(i));
            }
        }
    }
}

/// The identifier ends in `-<digits>` whose value leaves room for the
/// one that is added.
pub open spec fn identifier_has_node_id(s: Seq<char>) -> bool {
    &&& last_dash(s) >= 0
    &&& last_dash(s) + 1 < s.len()
    &&& forall|j: int| last_dash(s) < j < s.len() ==> is_digit(#[trigger] s[j])
    &&& dec_val(s.skip(last_dash(s) + 1)) < u64::MAX as int
}

/// The node id an identifier denotes: the trailing integer plus one.
pub open spec fn spec_node_id(s: Seq<char>) -> int {
    dec_val(s.skip(last_dash(s) + 1)) + 1
}

impl Configuration {
    /// The consensus node id: the integer after the identifier's last
    /// `-`, plus one.  An identifier without a dash is invalid; one
    /// whose tail is not an integer the id type can hold (with the
    /// increment) yields `NotANumber`.
    pub fn id(&self) -> (r: Result<u64, ConfigError>)
        ensures
            r is Ok <==> identifier_has_node_id(self.identifier@),
            r matches Ok(n) ==> n == spec_node_id(self.identifier@),
            r == Err::<u64, ConfigError>(ConfigError::InvalidIdentifier) <==> last_dash(
                self.identifier@,
            ) < 0,
    {
        let s = self.identifier.as_str();
        let len = s.unicode_len();
        proof {
            lemma_last_dash(s@);
        }
        let mut dash: usize = len;
        let mut j: usize = len;
        while j > 0
            invariant
                len == s@.len(),
                0 <= j <= len,
                j <= dash <= len,
                dash == len ==> forall|k: int| j <= k < len ==> s@[k] != '-',
                dash < len ==> j <= dash && s@[dash as int] == '-' && forall|k: int|
                    dash < k < len ==> s@[k] != '-',
            decreases j,
        {
            if dash == len && s.get_char(j - 1) == '-' {
                dash = j - 1;
            }
            j = j - 1;
        }
        if dash == len {
            proof {
                assert(last_dash(s@) < 0) by {
                    lemma_last_dash(s@);
                    if last_dash(s@) >= 0 {
                        assert(s@[last_dash(s@)] == '-');
                    }
                }
            }
            return Err(ConfigError::InvalidIdentifier);
        }
        proof {
            lemma_last_dash(s@);
            let ld = last_dash(s@);
            if ld < dash as int {
                assert(s@[dash as int] != '-');
            }
            if ld > dash as int {
                assert(s@[ld] != '-');
            }
            assert(dash as int == last_dash(s@));
        }
        if dash + 1 >= len {
            return Err(ConfigError::NotANumber);
        }
        let ghost digits = s@.skip(dash + 1);
        let mut value: u64 = 0;
        let mut i: usize = dash + 1;
        while i < len
            invariant
                s@ == self.identifier@,
                len == s@.len(),
                dash as int == last_dash(s@),
                dash + 1 < len,
                dash + 1 <= i <= len,
                digits == s@.skip(dash + 1),
                forall|k: int| dash < k < i ==> is_digit(#[trigger] s@[k]),
                value < u64::MAX,
                value as int == dec_val(digits.take(i - dash - 1)),
            decreases len - i,
        {
            let c = s.get_char(i);
            if !(c >= '0' && c <= '9') {
                proof {
                    assert(!is_digit(s@[i as int]));
                }
                return Err(ConfigError::NotANumber);
            }
            let d = (c as u32 - 48) as u64;
            let wide = value as u128 * 10 + d as u128;
            if wide >= u64::MAX as u128 {
                proof {
                    assert(digits.take(i - dash).drop_last() =~= digits.take(i - dash - 1));
                    assert(digits.take(i - dash).last() == s@[i as int]);
                    assert(dec_val(digits.take(i - dash)) >= u64::MAX as int);
                    if identifier_has_node_id(s@) {
                        assert(forall|k: int|
                            0 <= k < digits.len() ==> is_digit(#[trigger] digits[k]));
                        lemma_dec_val_bounds(digits);
                        assert(dec_val(digits.take(i - dash)) <= dec_val(digits));
                        assert(false);
                    }
                }
                return Err(ConfigError::NotANumber);
            }
            value = value * 10 + d;
            proof {
                assert(digits.take(i - dash).drop_last() =~= digits.take(i - dash - 1));
                assert(digits.take(i - dash).last() == s@[i as int]);
            }
            i = i + 1;
        }
        proof {
            assert(digits.take(len - dash - 1) =~= digits);
            assert(identifier_has_node_id(s@));
        }
        Ok(value + 1)
    }
}

} // verus!
