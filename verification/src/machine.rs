//! The consensus state machine: a single-leader, Raft-like protocol
//! with pre-vote, an `obedient` gate against disruptive vote requests,
//! log-match rejection and conflict truncation.  The machine is purely
//! a function of its state, the log and one incoming envelope; timers
//! and sockets live with the driver, which feeds `Tick` envelopes and
//! carries the outbox.
use vstd::prelude::*;

use crate::config::Configuration;
use crate::log::{Log, LogEntry, entries_view, duplicate_entries};
use crate::types::RegistryAction;

verus! {

/// Messages exchanged between peers, plus the local `Tick` and the
/// local `AddEntries` proposal.
#[derive(Debug, PartialEq, Eq, PartialOrd, Ord, Clone)]
pub enum Message {
    Tick {},
    Vote { index: u64 },
    VoteReply { reject: bool },
    PreVote { index: u64 },
    PreVoteReply { reject: bool },
    AppendEntries { leader_commit: u64, prev_index: u64, prev_term: u64, entries: Vec<LogEntry> },
    AppendEntriesReply { reject: bool, log_index: Option<u64> },
    AddEntries { entries: Vec<RegistryAction> },
}

/// One message in flight between two named nodes, stamped with the
/// sender's term.
#[derive(Debug, PartialEq, Eq, PartialOrd, Ord, Clone)]
pub struct Envelope {
    pub source: String,
    pub destination: String,
    pub term: u64,
    pub message: Message,
}

/// The role a node currently plays.
#[derive(Debug, PartialEq, Eq, Structural, Clone, Copy)]
pub enum PeerState {
    Follower,
    PreCandidate,
    Candidate,
    Leader,
}

/// What a leader tracks about one peer.
#[derive(Debug, Clone, PartialEq, Eq, PartialOrd, Ord)]
pub struct Peer {
    pub identifier: String,
    pub next_index: u64,
    pub match_index: u64,
}

/// Votes needed for a majority of the cluster (the peers plus this
/// node).
pub open spec fn spec_quorum(peers: int) -> int {
    (peers + 1) / 2 + 1
}

/// The term a candidate moves to: one more, pinned at the top of the
/// type.
pub open spec fn next_term(t: u64) -> u64 {
    if t < u64::MAX {
        (t + 1) as u64
    } else {
        t
    }
}

/// The consensus core of one node.
pub struct Machine {
    pub identifier: String,
    pub state: PeerState,
    pub term: u64,
    pub outbox: Vec<Envelope>,
    pub leader: Option<String>,
    pub peers: Vec<Peer>,
    pub voted_for: Option<String>,
    pub vote_count: usize,
    pub pending_index: u64,
    pub stored_index: u64,
    pub commit_index: u64,
    pub applied_index: u64,
    pub obedient: bool,
}

/// Number of peers whose `match_index` has reached `i`.
pub open spec fn match_count(peers: Seq<Peer>, i: int) -> int
    decreases peers.len(),
{
    if peers.len() == 0 {
        0
    } else {
        match_count(peers.drop_last(), i) + if peers.last().match_index >= i {
            1int
        } else {
            0int
        }
    }
}

/// Would this machine grant the vote or pre-vote the envelope asks
/// for?  A leader never grants; an obedient follower (one still
/// hearing heartbeats) never grants; otherwise a pre-vote needs only a
/// future term, and a real vote needs a future term and a log at least
/// as long as ours.
pub open spec fn grants_vote(m: Machine, stored: int, env: Envelope) -> bool {
    &&& m.state != PeerState::Leader
    &&& !m.obedient
    &&& match env.message {
        Message::PreVote { index } => env.term > m.term,
        Message::Vote { index } => env.term > m.term && stored <= index,
        _ => false,
    }
}

/// An envelope from a past term (term zero marks local messages).
pub open spec fn is_stale(m: Machine, env: Envelope) -> bool {
    env.term > 0 && env.term < m.term
}

/// Where a `Tick` sends the machine: a leader heartbeats and stays; a
/// follower starts a pre-election (degenerating to an instant election
/// in a cluster of one); a pre-candidate or candidate whose election
/// window passed falls back to follower.
pub open spec fn tick_target(m: Machine) -> PeerState {
    match m.state {
        PeerState::Leader => PeerState::Leader,
        PeerState::Follower => if spec_quorum(m.peers@.len() as int) == 1 {
            PeerState::Leader
        } else {
            PeerState::PreCandidate
        },
        PeerState::PreCandidate => PeerState::Follower,
        PeerState::Candidate => PeerState::Follower,
    }
}

impl Machine {
    /// Representation invariant: a bounded, statically configured peer
    /// set; a vote count that never exceeds the cluster; live leader
    /// bookkeeping.
    pub open spec fn wf(&self) -> bool {
        &&& self.peers@.len() <= 0xFFFF
        &&& self.vote_count <= self.peers@.len() + 1
        &&& self.commit_index < u64::MAX
        &&& (self.state == PeerState::Leader ==> forall|i: int|
            0 <= i < self.peers@.len() ==> (#[trigger] self.peers@[i]).next_index >= 1)
    }

    /// A fresh follower at term one, knowing the configured peers
    /// other than itself.
    pub fn new(config: &Configuration) -> (r: Machine)
        requires
            config.peers@.len() <= 0xFFFF,
        ensures
            r.wf(),
            r.state == PeerState::Follower,
            r.term == 1,
            r.leader is None,
            r.voted_for is None,
            r.obedient,
            r.vote_count == 0,
            r.pending_index == 0,
            r.stored_index == 0,
            r.commit_index == 0,
            r.applied_index == 0,
            r.outbox@.len() == 0,
            r.identifier@ == config.identifier@,
            r.peers@.len() <= config.peers@.len(),
            forall|k: int|
                0 <= k < r.peers@.len() ==> {
                    let p = #[trigger] r.peers@[k];
                    &&& p.next_index == 0
                    &&& p.match_index == 0
                    &&& p.identifier@ != config.identifier@
                    &&& exists|j: int|
                        0 <= j < config.peers@.len() && (#[trigger] config.peers@[j]).name@
                            == p.identifier@
                },
            forall|j: int|
                0 <= j < config.peers@.len() && (#[trigger] config.peers@[j]).name@
                    != config.identifier@ ==> exists|k: int|
                    0 <= k < r.peers@.len() && (#[trigger] r.peers@[k]).identifier@
                        == config.peers@[j].name@,
    {
        let mut peers: Vec<Peer> = Vec::new();
        let mut i: usize = 0;
        while i < config.peers.len()
            invariant
                0 <= i <= config.peers@.len(),
                config.peers@.len() <= 0xFFFF,
                peers@.len() <= i,
                forall|k: int|
                    0 <= k < peers@.len() ==> {
                        let p = #[trigger] peers@[k];
                        &&& p.next_index == 0
                        &&& p.match_index == 0
                        &&& p.identifier@ != config.identifier@
                        &&& exists|j: int|
                            0 <= j < config.peers@.len() && (#[trigger] config.peers@[j]).name@
                                == p.identifier@
                    },
                forall|j: int|
                    0 <= j < i && (#[trigger] config.peers@[j]).name@ != config.identifier@
                        ==> exists|k: int|
                        0 <= k < peers@.len() && (#[trigger] peers@[k]).identifier@
                            == config.peers@[j].name@,
            decreases config.peers@.len() - i,
        {
            if !(config.peers[i].name == config.identifier) {
                let ghost pre = peers@;
                peers.push(
                    Peer {
                        identifier: config.peers[i].name.clone(),
                        next_index: 0,
                        match_index: 0,
                    },
                );
                proof {
                    assert(config.peers@[i as int].name@ == peers@[peers@.len() - 1].identifier@);
                    assert forall|j: int|
                        0 <= j < i + 1 && (#[trigger] config.peers@[j]).name@
                            != config.identifier@ implies exists|k: int|
                        0 <= k < peers@.len() && (#[trigger] peers@[k]).identifier@
                            == config.peers@[j].name@ by {
                        if j < i {
                            let k = choose|k: int|
                                0 <= k < pre.len() && (#[trigger] pre[k]).identifier@
                                    == config.peers@[j].name@;
                            assert(peers@[k].identifier@ == config.peers@[j].name@);
                        } else {
                            assert(peers@[peers@.len() - 1].identifier@ == config.peers@[j].name@);
                        }
                    }
                }
            }
            i = i + 1;
        }
        Machine {
            identifier: config.identifier.clone(),
            state: PeerState::Follower,
            leader: None,
            term: 1,
            vote_count: 0,
            voted_for: None,
            obedient: true,
            outbox: Vec::new(),
            pending_index: 0,
            stored_index: 0,
            applied_index: 0,
            commit_index: 0,
            peers,
        }
    }

    /// Number of configured peers (this node not counted).
    pub fn cluster_size(&self) -> (r: usize)
        ensures
            r == self.peers@.len(),
    {
        self.peers.len()
    }

    /// Votes needed for a majority.
    pub fn quorum(&self) -> (r: usize)
        requires
            self.wf(),
        ensures
            r == spec_quorum(self.peers@.len() as int),
    {
        let n = self.cluster_size();
        (n + 1) / 2 + 1
    }

    /// Is this node currently the leader?
    pub fn is_leader(&self) -> (r: bool)
        ensures
            r == (self.state == PeerState::Leader),
    {
        matches!(self.state, PeerState::Leader)
    }

    /// Adopt a (possibly new) term: a changed term forgets the vote.
    fn reset(&mut self, term: u64)
        ensures
            *final(self) == (Machine {
                term,
                voted_for: if term != old(self).term {
                    None
                } else {
                    old(self).voted_for
                },
                leader: None,
                ..*old(self)
            }),
    {
        if term != self.term {
            self.term = term;
            self.voted_for = None;
        }
        self.leader = None;
    }

    fn become_follower(&mut self, term: u64, leader: Option<String>)
        requires
            old(self).wf(),
        ensures
            final(self).wf(),
            *final(self) == (Machine {
                state: PeerState::Follower,
                term,
                voted_for: if term != old(self).term {
                    None
                } else {
                    old(self).voted_for
                },
                leader,
                ..*old(self)
            }),
    {
        self.state = PeerState::Follower;
        self.reset(term);
        self.leader = leader;
    }

    /// Push one reply towards the envelope's sender.
    fn reply(&mut self, envelope: &Envelope, term: u64, message: Message)
        ensures
            *final(self) == (Machine {
                outbox: final(self).outbox,
                ..*old(self)
            }),
            final(self).outbox@.len() == old(self).outbox@.len() + 1,
            final(self).outbox@.take(old(self).outbox@.len() as int) == old(self).outbox@,
            final(self).outbox@.last().source@ == old(self).identifier@,
            final(self).outbox@.last().destination@ == envelope.source@,
            final(self).outbox@.last().term == term,
            final(self).outbox@.last().message == message,
    {
        let e = Envelope {
            source: self.identifier.clone(),
            destination: envelope.source.clone(),
            term,
            message,
        };
        self.outbox.push(e);
        proof {
            assert(final(self).outbox@.take(old(self).outbox@.len() as int) =~= old(self).outbox@);
        }
    }

    /// Can this machine grant the vote the envelope asks for?
    fn can_vote(&self, envelope: &Envelope) -> (r: bool)
        ensures
            r == grants_vote(*self, self.stored_index as int, *envelope),
    {
        if matches!(self.state, PeerState::Leader) {
            return false;
        }
        if self.obedient {
            return false;
        }
        let index = match &envelope.message {
            Message::PreVote { index } => {
                if envelope.term > self.term {
                    return true;
                }
                *index
            },
            Message::Vote { index } => *index,
            _ => {
                return false;
            },
        };
        if self.term >= envelope.term {
            return false;
        }
        if self.stored_index > index {
            return false;
        }
        true
    }

    /// Raft's commit rule: advance `commit_index` to the greatest entry
    /// of the current term that a quorum has persisted.  The commit
    /// index never moves backwards.
    fn maybe_commit(&mut self, log: &Log)
        requires
            old(self).wf(),
            log.wf(),
            old(self).stored_index <= log.spec_last_index(),
            old(self).commit_index >= log.spec_snap(),
        ensures
            final(self).wf(),
            *final(self) == (Machine { commit_index: final(self).commit_index, ..*old(self) }),
            final(self).commit_index >= old(self).commit_index,
            final(self).commit_index > old(self).commit_index ==> {
                &&& final(self).commit_index <= old(self).stored_index
                &&& log.term_at(final(self).commit_index as int) == old(self).term
                &&& match_count(old(self).peers@, final(self).commit_index as int) + 1
                    >= spec_quorum(old(self).peers@.len() as int)
                &&& forall|i: int|
                    final(self).commit_index < i <= old(self).stored_index && #[trigger] log.term_at(
                        i,
                    ) == old(self).term ==> match_count(old(self).peers@, i) + 1 < spec_quorum(
                        old(self).peers@.len() as int,
                    )
            },
    {
        let mut commit_index: u64 = 0;
        let start = if self.commit_index > log.snapshot_boundary() {
            self.commit_index
        } else {
            log.snapshot_boundary()
        };
        if start >= self.stored_index {
            return ;
        }
        let mut i: u64 = start + 1;
        while i <= self.stored_index
            invariant
                self == old(self),
                self.wf(),
                log.wf(),
                self.stored_index <= log.spec_last_index(),
                self.commit_index >= log.spec_snap(),
                start + 1 <= i,
                start >= self.commit_index,
                start >= log.spec_snap(),
                i <= self.stored_index + 1,
                commit_index == 0 || (start < commit_index < i && log.term_at(commit_index as int)
                    == self.term && match_count(self.peers@, commit_index as int) + 1
                    >= spec_quorum(self.peers@.len() as int)),
                forall|j: int|
                    vstd::math::max(commit_index as int, start as int) < j < i && log.term_at(j)
                        == self.term ==> match_count(self.peers@, j) + 1 < spec_quorum(
                        self.peers@.len() as int,
                    ),
            decreases self.stored_index + 1 - i,
        {
            if log.get(i).term == self.term {
                let mut count: usize = 1;
                let mut p: usize = 0;
                while p < self.peers.len()
                    invariant
                        0 <= p <= self.peers@.len(),
                        self.peers@.len() <= 0xFFFF,
                        count == match_count(self.peers@.take(p as int), i as int) + 1,
                    decreases self.peers@.len() - p,
                {
                    proof {
                        assert(self.peers@.take(p + 1).drop_last() =~= self.peers@.take(p as int));
                        assert(self.peers@.take(p + 1).last() == self.peers@[p as int]);
                        assert(match_count(self.peers@.take(p as int), i as int) <= p as int) by {
                            lemma_match_count_bound(self.peers@.take(p as int), i as int);
                        }
                    }
                    if self.peers[p].match_index >= i {
                        count = count + 1;
                    }
                    p = p + 1;
                }
                proof {
                    assert(self.peers@.take(self.peers@.len() as int) =~= self.peers@);
                }
                if count >= self.quorum() {
                    commit_index = i;
                }
            }
            i = i + 1;
        }
        if commit_index <= self.commit_index {
            return ;
        }
        self.commit_index = commit_index;
    }
}

impl Machine {
    /// The clamped log position a leader probes for this peer: just
    /// before the peer's next expected entry, inside the log, and
    /// never before the first entry.
    pub open spec fn spec_prev(p: Peer, stored: int) -> int {
        vstd::math::max(vstd::math::min(p.next_index - 1, stored), 1)
    }

    /// Emit one `AppendEntries` probe per peer, then try to advance the
    /// commit index.  The probes carry the commit index from before
    /// that advance.
    fn broadcast_entries(&mut self, log: &Log)
        requires
            old(self).wf(),
            log.wf(),
            log.spec_snap() == 0,
            old(self).state == PeerState::Leader,
            old(self).stored_index <= log.spec_last_index(),
            log.spec_last_index() >= 1,
        ensures
            final(self).wf(),
            *final(self) == (Machine {
                outbox: final(self).outbox,
                commit_index: final(self).commit_index,
                ..*old(self)
            }),
            final(self).commit_index >= old(self).commit_index,
            final(self).commit_index > old(self).commit_index ==> {
                &&& final(self).commit_index <= old(self).stored_index
                &&& log.term_at(final(self).commit_index as int) == old(self).term
                &&& match_count(old(self).peers@, final(self).commit_index as int) + 1
                    >= spec_quorum(old(self).peers@.len() as int)
                &&& forall|i: int|
                    final(self).commit_index < i <= old(self).stored_index && #[trigger] log.term_at(
                        i,
                    ) == old(self).term ==> match_count(old(self).peers@, i) + 1 < spec_quorum(
                        old(self).peers@.len() as int,
                    )
            },
            final(self).outbox@.len() == old(self).outbox@.len() + old(self).peers@.len(),
            final(self).outbox@.take(old(self).outbox@.len() as int) == old(self).outbox@,
            forall|k: int|
                old(self).outbox@.len() <= k < final(self).outbox@.len() ==> {
                    let e = #[trigger] final(self).outbox@[k];
                    let p = old(self).peers@[k - old(self).outbox@.len()];
                    &&& e.source@ == old(self).identifier@
                    &&& e.destination@ == p.identifier@
                    &&& e.term == old(self).term
                    &&& e.message matches Message::AppendEntries {
                        leader_commit,
                        prev_index,
                        prev_term,
                        entries,
                    } ==> {
                        &&& leader_commit == old(self).commit_index
                        &&& prev_index == Self::spec_prev(p, old(self).stored_index as int)
                        &&& prev_term == log.term_at(prev_index as int)
                        &&& entries_view(entries@) == entries_view(log.entries@).skip(
                            prev_index as int,
                        )
                    }
                    &&& e.message is AppendEntries
                },
    {
        let n = self.peers.len();
        let mut k: usize = 0;
        while k < n
            invariant
                self.wf(),
                log.wf(),
                log.spec_snap() == 0,
                self.state == PeerState::Leader,
                self.stored_index <= log.spec_last_index(),
                log.spec_last_index() >= 1,
                n == self.peers@.len(),
                0 <= k <= n,
                *self == (Machine { outbox: self.outbox, ..*old(self) }),
                self.outbox@.len() == old(self).outbox@.len() + k,
                self.outbox@.take(old(self).outbox@.len() as int) == old(self).outbox@,
                forall|j: int|
                    old(self).outbox@.len() <= j < self.outbox@.len() ==> {
                        let e = #[trigger] self.outbox@[j];
                        let p = old(self).peers@[j - old(self).outbox@.len()];
                        &&& e.source@ == old(self).identifier@
                        &&& e.destination@ == p.identifier@
                        &&& e.term == old(self).term
                        &&& e.message matches Message::AppendEntries {
                            leader_commit,
                            prev_index,
                            prev_term,
                            entries,
                        } ==> {
                            &&& leader_commit == old(self).commit_index
                            &&& prev_index == Self::spec_prev(p, old(self).stored_index as int)
                            &&& prev_term == log.term_at(prev_index as int)
                            &&& entries_view(entries@) == entries_view(log.entries@).skip(
                                prev_index as int,
                            )
                        }
                        &&& e.message is AppendEntries
                    },
            decreases n - k,
        {
            let next_index = self.peers[k].next_index;
            let low = if next_index - 1 < self.stored_index {
                next_index - 1
            } else {
                self.stored_index
            };
            let prev_index = if low > 1 {
                low
            } else {
                1
            };
            let prev_term = log.get(prev_index).term;
            let entries = log.tail_from(prev_index);
            let ghost pre = self.outbox@;
            let e = Envelope {
                source: self.identifier.clone(),
                destination: self.peers[k].identifier.clone(),
                term: self.term,
                message: Message::AppendEntries {
                    prev_index,
                    prev_term,
                    entries,
                    leader_commit: self.commit_index,
                },
            };
            self.outbox.push(e);
            proof {
                assert(self.outbox@.take(old(self).outbox@.len() as int) =~= pre.take(
                    old(self).outbox@.len() as int,
                ));
                assert(entries_view(log.entries@).skip(prev_index as int) =~= entries_view(
                    log.entries@,
                ).skip(
                    vstd::math::min(prev_index - log.spec_snap(), log.entries@.len() as int),
                ));
            }
            k = k + 1;
        }
        self.maybe_commit(log);
    }

    /// Append one action as a new entry of the current term; only a
    /// leader may, and a leader then re-checks the commit rule.
    fn append(&mut self, log: &mut Log, entry: RegistryAction) -> (r: bool)
        requires
            old(self).wf(),
            old(log).wf(),
            old(log).spec_snap() == 0,
            old(self).stored_index <= old(log).spec_last_index(),
            old(log).spec_last_index() + 1 < u64::MAX as int,
        ensures
            final(self).wf(),
            final(log).wf(),
            final(log).spec_snap() == 0,
            r == (old(self).state == PeerState::Leader),
            *final(self) == (Machine { commit_index: final(self).commit_index, ..*old(self) }),
            final(self).commit_index >= old(self).commit_index,
            final(self).commit_index > old(self).commit_index ==> {
                &&& final(self).commit_index <= old(self).stored_index
                &&& old(log).term_at(final(self).commit_index as int) == old(self).term
                &&& match_count(old(self).peers@, final(self).commit_index as int) + 1
                    >= spec_quorum(old(self).peers@.len() as int)
                &&& forall|i: int|
                    final(self).commit_index < i <= old(self).stored_index && #[trigger] old(
                        log,
                    ).term_at(i) == old(self).term ==> match_count(old(self).peers@, i) + 1
                        < spec_quorum(old(self).peers@.len() as int)
            },
            r ==> final(log).entries@ =~= old(log).entries@.push(
                LogEntry { term: old(self).term, entry },
            ) && final(log).snapshot_index == old(log).snapshot_index,
            !r ==> *final(log) == *old(log),
            final(self).stored_index <= final(log).spec_last_index(),
    {
        match self.state {
            PeerState::Leader => {
                log.append(LogEntry { term: self.term, entry });
                self.maybe_commit(log);
                proof {
                    if self.commit_index > old(self).commit_index {
                        assert(log.entries@[self.commit_index - 1] == old(log).entries@[self.commit_index
                            - 1]);
                        assert forall|i: int|
                            self.commit_index < i <= old(self).stored_index && old(log).term_at(i)
                                == old(self).term implies match_count(old(self).peers@, i) + 1
                            < spec_quorum(old(self).peers@.len() as int) by {
                            assert(log.entries@[i - 1] == old(log).entries@[i - 1]);
                            assert(log.term_at(i) == old(log).term_at(i));
                        }
                    }
                }
                true
            },
            _ => false,
        }
    }

    /// Take the leadership this node has just won: reset peer
    /// bookkeeping, commit a no-op of the new term so earlier entries
    /// become committable, and probe every peer.
    fn become_leader(&mut self, log: &mut Log)
        requires
            old(self).wf(),
            old(log).wf(),
            old(log).spec_snap() == 0,
            old(self).stored_index <= old(log).spec_last_index(),
            old(log).spec_last_index() + 1 < u64::MAX as int,
        ensures
            final(self).wf(),
            final(log).wf(),
            final(log).spec_snap() == 0,
            final(self).state == PeerState::Leader,
            final(self).term == old(self).term,
            final(self).identifier == old(self).identifier,
            final(self).obedient == old(self).obedient,
            final(self).stored_index == old(self).stored_index,
            final(self).commit_index >= old(self).commit_index,
            final(self).commit_index > old(self).commit_index ==> {
                &&& final(self).commit_index <= old(self).stored_index
                &&& old(log).term_at(final(self).commit_index as int) == final(self).term
                &&& match_count(final(self).peers@, final(self).commit_index as int) + 1
                    >= spec_quorum(old(self).peers@.len() as int)
                &&& forall|i: int|
                    final(self).commit_index < i <= old(self).stored_index && #[trigger] old(
                        log,
                    ).term_at(i) == final(self).term ==> match_count(final(self).peers@, i) + 1
                        < spec_quorum(old(self).peers@.len() as int)
            },
            final(self).peers@.len() == old(self).peers@.len(),
            forall|k: int|
                0 <= k < final(self).peers@.len() ==> (#[trigger] final(self).peers@[k])
                    == (Peer {
                    next_index: (old(self).stored_index + 1) as u64,
                    match_index: 0,
                    ..old(self).peers@[k]
                }),
            final(log).entries@ =~= old(log).entries@.push(
                LogEntry { term: old(self).term, entry: RegistryAction::Empty },
            ),
            final(self).voted_for == old(self).voted_for,
            final(self).outbox@.len() == old(self).outbox@.len() + old(self).peers@.len(),
            final(self).outbox@.take(old(self).outbox@.len() as int) == old(self).outbox@,
            forall|k: int|
                old(self).outbox@.len() <= k < final(self).outbox@.len() ==> {
                    let e = #[trigger] final(self).outbox@[k];
                    e.message is AppendEntries && e.source@ == old(self).identifier@
                },
            old(self).stored_index == old(log).spec_last_index() ==> forall|k: int|
                old(self).outbox@.len() <= k < final(self).outbox@.len() ==> {
                    let e = #[trigger] final(self).outbox@[k];
                    let stored0 = old(self).stored_index as int;
                    &&& e.destination@ == old(self).peers@[k - old(self).outbox@.len()].identifier@
                    &&& e.term == old(self).term
                    &&& (e.message matches Message::AppendEntries {
                        leader_commit,
                        prev_index,
                        prev_term,
                        entries,
                    } ==> {
                        &&& leader_commit == old(self).commit_index
                        &&& prev_index == vstd::math::max(stored0, 1)
                        &&& prev_term == (if stored0 >= 1 {
                            old(log).entries@.last().term
                        } else {
                            old(self).term
                        })
                        &&& entries_view(entries@) == (if stored0 >= 1 {
                            seq![
                                crate::log::LogEntryView {
                                    term: old(self).term,
                                    entry: crate::types::ActionView::Empty,
                                },
                            ]
                        } else {
                            Seq::<crate::log::LogEntryView>::empty()
                        })
                    })
                },
    {
        self.state = PeerState::Leader;
        let term = self.term;
        self.reset(term);
        let n = self.peers.len();
        let mut k: usize = 0;
        while k < n
            invariant
                n == self.peers@.len(),
                0 <= k <= n,
                self.identifier == old(self).identifier,
                self.outbox == old(self).outbox,
                self.commit_index == old(self).commit_index,
                self.stored_index == old(self).stored_index,
                self.vote_count == old(self).vote_count,
                self.obedient == old(self).obedient,
                self.voted_for == old(self).voted_for,
                self.pending_index == old(self).pending_index,
                self.applied_index == old(self).applied_index,
                self.state == PeerState::Leader,
                self.term == old(self).term,
                self.leader is None,
                self.stored_index < u64::MAX,
                self.peers@.len() == old(self).peers@.len(),
                forall|j: int|
                    0 <= j < k ==> (#[trigger] self.peers@[j]) == (Peer {
                        next_index: (self.stored_index + 1) as u64,
                        match_index: 0,
                        ..old(self).peers@[j]
                    }),
                forall|j: int| k <= j < n ==> self.peers@[j] == old(self).peers@[j],
            decreases n - k,
        {
            let stored_index = self.stored_index;
            let p = &mut self.peers;
            let old_peer = p.remove(k);
            p.insert(
                k,
                Peer {
                    identifier: old_peer.identifier,
                    next_index: stored_index + 1,
                    match_index: 0,
                },
            );
            proof {
                assert forall|j: int| k + 1 <= j < n implies self.peers@[j] == old(self).peers@[j]
                    by {
                    assert(self.peers@[j] == p@[j]);
                }
            }
            k = k + 1;
        }
        proof {
            assert(self.wf());
        }
        let ghost commit0 = self.commit_index;
        self.append(log, RegistryAction::Empty);
        proof {
            if self.peers.len() > 0 && self.commit_index != commit0 {
                lemma_match_count_zero(self.peers@, self.commit_index as int);
                assert(false);
            }
        }
        let ghost mid = *self;
        let ghost mid_log = *log;
        self.broadcast_entries(log);
        proof {
            if self.peers.len() > 0 && self.commit_index != commit0 {
                lemma_match_count_zero(mid.peers@, self.commit_index as int);
                assert(false);
            }
            if self.commit_index > old(self).commit_index {
                if self.commit_index > mid.commit_index {
                    assert(old(log).term_at(self.commit_index as int) == mid_log.term_at(
                        self.commit_index as int,
                    )) by {
                        assert(mid_log.entries@[self.commit_index - 1] == old(log).entries@[self.commit_index
                            - 1]);
                    }
                    assert forall|i: int|
                        self.commit_index < i <= old(self).stored_index && old(log).term_at(i)
                            == self.term implies match_count(self.peers@, i) + 1 < spec_quorum(
                        old(self).peers@.len() as int,
                    ) by {
                        assert(mid_log.entries@[i - 1] == old(log).entries@[i - 1]);
                        assert(mid_log.term_at(i) == old(log).term_at(i));
                    }
                }
            }
            if old(self).stored_index == old(log).spec_last_index() {
                let stored0 = old(self).stored_index as int;
                assert forall|k: int|
                    old(self).outbox@.len() <= k < self.outbox@.len() implies {
                    let e = #[trigger] self.outbox@[k];
                    &&& e.destination@ == old(self).peers@[k - old(self).outbox@.len()].identifier@
                    &&& e.term == old(self).term
                    &&& (e.message matches Message::AppendEntries {
                        leader_commit,
                        prev_index,
                        prev_term,
                        entries,
                    } ==> {
                        &&& leader_commit == old(self).commit_index
                        &&& prev_index == vstd::math::max(stored0, 1)
                        &&& prev_term == (if stored0 >= 1 {
                            old(log).entries@.last().term
                        } else {
                            old(self).term
                        })
                        &&& entries_view(entries@) == (if stored0 >= 1 {
                            seq![
                                crate::log::LogEntryView {
                                    term: old(self).term,
                                    entry: crate::types::ActionView::Empty,
                                },
                            ]
                        } else {
                            Seq::<crate::log::LogEntryView>::empty()
                        })
                    })
                } by {
                    let p = mid.peers@[k - old(self).outbox@.len()];
                    assert(Self::spec_prev(p, mid.stored_index as int) == vstd::math::max(
                        stored0,
                        1,
                    ));
                    let prev = vstd::math::max(stored0, 1);
                    assert(mid_log.entries@ =~= old(log).entries@.push(
                        LogEntry { term: old(self).term, entry: RegistryAction::Empty },
                    ));
                    if stored0 >= 1 {
                        assert(mid_log.term_at(prev) == old(log).entries@.last().term);
                        assert(entries_view(mid_log.entries@).skip(prev) =~= seq![
                            crate::log::LogEntryView {
                                term: old(self).term,
                                entry: crate::types::ActionView::Empty,
                            },
                        ]) by {
                            assert(entries_view(mid_log.entries@).len() == stored0 + 1);
                            assert(entries_view(mid_log.entries@)[stored0]
                                == mid_log.entries@[stored0]@);
                        }
                    } else {
                        assert(mid_log.term_at(prev) == mid_log.entries@[0].term);
                        assert(mid_log.entries@[0].term == old(self).term);
                        assert(entries_view(mid_log.entries@).skip(prev)
                            =~= Seq::<crate::log::LogEntryView>::empty());
                    }
                }
            }
        }
    }
}

/// With every peer's progress reset to zero, no entry counts any
/// replica beyond this node itself.
proof fn lemma_match_count_zero(peers: Seq<Peer>, i: int)
    requires
        forall|k: int| 0 <= k < peers.len() ==> (#[trigger] peers[k]).match_index == 0,
        i >= 1,
    ensures
        match_count(peers, i) == 0,
    decreases peers.len(),
{
    if peers.len() > 0 {
        lemma_match_count_zero(peers.drop_last(), i);
    }
}

impl Machine {
    /// Run for leader: bump the term, vote for ourselves, and ask every
    /// peer for its vote (a cluster of one elects itself at once).
    fn become_candidate(&mut self, log: &mut Log)
        requires
            old(self).wf(),
            old(log).wf(),
            old(log).spec_snap() == 0,
            old(self).stored_index <= old(log).spec_last_index(),
            old(log).spec_last_index() + 1 < u64::MAX as int,
        ensures
            final(self).wf(),
            final(log).wf(),
            final(log).spec_snap() == 0,
            final(self).identifier == old(self).identifier,
            final(self).peers@.len() == old(self).peers@.len(),
            final(self).term == (if spec_quorum(old(self).peers@.len() as int) == 1 {
                old(self).term
            } else {
                next_term(old(self).term)
            }),
            final(self).commit_index >= old(self).commit_index,
            final(self).commit_index > old(self).commit_index ==> {
                &&& final(self).commit_index <= old(self).stored_index
                &&& old(log).term_at(final(self).commit_index as int) == final(self).term
                &&& match_count(final(self).peers@, final(self).commit_index as int) + 1
                    >= spec_quorum(old(self).peers@.len() as int)
                &&& forall|i: int|
                    final(self).commit_index < i <= old(self).stored_index && #[trigger] old(
                        log,
                    ).term_at(i) == final(self).term ==> match_count(final(self).peers@, i) + 1
                        < spec_quorum(old(self).peers@.len() as int)
            },
            final(self).stored_index == old(self).stored_index,
            final(self).obedient == old(self).obedient,
            final(self).state == (if spec_quorum(old(self).peers@.len() as int) == 1 {
                PeerState::Leader
            } else {
                PeerState::Candidate
            }),
            final(self).voted_for matches Some(v) && v@ == old(self).identifier@,
            spec_quorum(old(self).peers@.len() as int) == 1 ==> {
                &&& final(log).entries@ =~= old(log).entries@.push(
                    LogEntry { term: old(self).term, entry: RegistryAction::Empty },
                )
                &&& final(self).outbox@.len() == old(self).outbox@.len() + old(self).peers@.len()
                &&& final(self).outbox@.take(old(self).outbox@.len() as int) == old(self).outbox@
                &&& forall|k: int|
                    old(self).outbox@.len() <= k < final(self).outbox@.len() ==> {
                        let e = #[trigger] final(self).outbox@[k];
                        e.message is AppendEntries && e.source@ == old(self).identifier@
                    }
            },
            spec_quorum(old(self).peers@.len() as int) != 1 ==> {
                &&& *final(log) == *old(log)
                &&& final(self).vote_count == 1
                &&& final(self).outbox@.len() == old(self).outbox@.len() + old(self).peers@.len()
                &&& final(self).outbox@.take(old(self).outbox@.len() as int) == old(self).outbox@
                &&& forall|k: int|
                    old(self).outbox@.len() <= k < final(self).outbox@.len() ==> {
                        let e = #[trigger] final(self).outbox@[k];
                        &&& e.source@ == old(self).identifier@
                        &&& e.destination@ == old(self).peers@[k - old(self).outbox@.len()].identifier@
                        &&& e.term == next_term(old(self).term)
                        &&& e.message == (Message::Vote { index: old(self).stored_index })
                    }
            },
    {
        self.state = PeerState::Candidate;
        self.vote_count = 1;
        if self.quorum() == 1 {
            self.voted_for = Some(self.identifier.clone());
            self.become_leader(log);
            return ;
        }
        let term = self.term;
        self.reset(if term < u64::MAX {
            term + 1
        } else {
            term
        });
        self.vote_count = 1;
        self.voted_for = Some(self.identifier.clone());
        let n = self.peers.len();
        let mut k: usize = 0;
        while k < n
            invariant
                n == self.peers@.len(),
                0 <= k <= n,
                self.identifier == old(self).identifier,
                self.peers == old(self).peers,
                self.state == PeerState::Candidate,
                self.term == next_term(old(self).term),
                self.commit_index == old(self).commit_index,
                self.stored_index == old(self).stored_index,
                self.vote_count == 1,
                self.vote_count <= self.peers@.len() + 1,
                self.obedient == old(self).obedient,
                self.commit_index < u64::MAX,
                self.voted_for matches Some(v) && v@ == old(self).identifier@,
                self.outbox@.len() == old(self).outbox@.len() + k,
                self.outbox@.take(old(self).outbox@.len() as int) == old(self).outbox@,
                forall|j: int|
                    old(self).outbox@.len() <= j < self.outbox@.len() ==> {
                        let e = #[trigger] self.outbox@[j];
                        &&& e.source@ == old(self).identifier@
                        &&& e.destination@ == old(self).peers@[j - old(self).outbox@.len()].identifier@
                        &&& e.term == next_term(old(self).term)
                        &&& e.message == (Message::Vote { index: old(self).stored_index })
                    },
            decreases n - k,
        {
            let ghost pre = self.outbox@;
            let e = Envelope {
                source: self.identifier.clone(),
                destination: self.peers[k].identifier.clone(),
                term: self.term,
                message: Message::Vote { index: self.stored_index },
            };
            self.outbox.push(e);
            proof {
                assert(self.outbox@.take(old(self).outbox@.len() as int) =~= pre.take(
                    old(self).outbox@.len() as int,
                ));
            }
            k = k + 1;
        }
    }

    /// Probe for an election without disturbing the term: ask every
    /// peer for a pre-vote at the next term, and stop obeying the old
    /// leader's heartbeats.
    fn become_pre_candidate(&mut self, log: &mut Log)
        requires
            old(self).wf(),
            old(log).wf(),
            old(log).spec_snap() == 0,
            old(self).stored_index <= old(log).spec_last_index(),
            old(log).spec_last_index() + 1 < u64::MAX as int,
        ensures
            final(self).wf(),
            final(log).wf(),
            final(log).spec_snap() == 0,
            final(self).identifier == old(self).identifier,
            final(self).peers@.len() == old(self).peers@.len(),
            final(self).commit_index >= old(self).commit_index,
            final(self).commit_index > old(self).commit_index ==> {
                &&& final(self).commit_index <= old(self).stored_index
                &&& old(log).term_at(final(self).commit_index as int) == final(self).term
                &&& match_count(final(self).peers@, final(self).commit_index as int) + 1
                    >= spec_quorum(old(self).peers@.len() as int)
                &&& forall|i: int|
                    final(self).commit_index < i <= old(self).stored_index && #[trigger] old(
                        log,
                    ).term_at(i) == final(self).term ==> match_count(final(self).peers@, i) + 1
                        < spec_quorum(old(self).peers@.len() as int)
            },
            final(self).stored_index == old(self).stored_index,
            !final(self).obedient,
            final(self).state == (if spec_quorum(old(self).peers@.len() as int) == 1 {
                PeerState::Leader
            } else {
                PeerState::PreCandidate
            }),
            spec_quorum(old(self).peers@.len() as int) == 1 ==> {
                &&& final(self).term == old(self).term
                &&& final(log).entries@ =~= old(log).entries@.push(
                    LogEntry { term: old(self).term, entry: RegistryAction::Empty },
                )
                &&& final(self).outbox@.len() == old(self).outbox@.len() + old(self).peers@.len()
                &&& final(self).outbox@.take(old(self).outbox@.len() as int) == old(self).outbox@
                &&& forall|k: int|
                    old(self).outbox@.len() <= k < final(self).outbox@.len() ==> {
                        let e = #[trigger] final(self).outbox@[k];
                        e.message is AppendEntries && e.source@ == old(self).identifier@
                    }
            },
            spec_quorum(old(self).peers@.len() as int) != 1 ==> {
                &&& *final(log) == *old(log)
                &&& final(self).term == old(self).term
                &&& final(self).vote_count == 1
                &&& final(self).outbox@.len() == old(self).outbox@.len() + old(self).peers@.len()
                &&& final(self).outbox@.take(old(self).outbox@.len() as int) == old(self).outbox@
                &&& forall|k: int|
                    old(self).outbox@.len() <= k < final(self).outbox@.len() ==> {
                        let e = #[trigger] final(self).outbox@[k];
                        &&& e.source@ == old(self).identifier@
                        &&& e.destination@ == old(self).peers@[k - old(self).outbox@.len()].identifier@
                        &&& e.term == next_term(old(self).term)
                        &&& e.message == (Message::PreVote { index: old(self).stored_index })
                    }
            },
    {
        self.state = PeerState::PreCandidate;
        self.obedient = false;
        if self.quorum() == 1 {
            self.become_candidate(log);
            return ;
        }
        self.vote_count = 1;
        let n = self.peers.len();
        let mut k: usize = 0;
        while k < n
            invariant
                n == self.peers@.len(),
                0 <= k <= n,
                self.identifier == old(self).identifier,
                self.peers == old(self).peers,
                self.state == PeerState::PreCandidate,
                !self.obedient,
                self.term == old(self).term,
                self.term < u64::MAX || next_term(self.term) == self.term,
                self.commit_index == old(self).commit_index,
                self.commit_index < u64::MAX,
                self.stored_index == old(self).stored_index,
                self.vote_count == 1,
                self.vote_count <= self.peers@.len() + 1,
                self.voted_for == old(self).voted_for,
                self.leader == old(self).leader,
                self.outbox@.len() == old(self).outbox@.len() + k,
                self.outbox@.take(old(self).outbox@.len() as int) == old(self).outbox@,
                forall|j: int|
                    old(self).outbox@.len() <= j < self.outbox@.len() ==> {
                        let e = #[trigger] self.outbox@[j];
                        &&& e.source@ == old(self).identifier@
                        &&& e.destination@ == old(self).peers@[j - old(self).outbox@.len()].identifier@
                        &&& e.term == next_term(old(self).term)
                        &&& e.message == (Message::PreVote { index: old(self).stored_index })
                    },
            decreases n - k,
        {
            let ghost pre = self.outbox@;
            let term = self.term;
            let probe_term = if term < u64::MAX {
                term + 1
            } else {
                term
            };
            let e = Envelope {
                source: self.identifier.clone(),
                destination: self.peers[k].identifier.clone(),
                term: probe_term,
                message: Message::PreVote { index: self.stored_index },
            };
            self.outbox.push(e);
            proof {
                assert(self.outbox@.take(old(self).outbox@.len() as int) =~= pre.take(
                    old(self).outbox@.len() as int,
                ));
            }
            k = k + 1;
        }
    }
}

impl Machine {
    /// Feed one envelope (a peer message or a local `Tick` /
    /// `AddEntries`) into the machine.  The machine empties its outbox,
    /// notes how far the log reaches, drops messages from past terms,
    /// and otherwise follows the protocol: it answers vote and
    /// pre-vote requests, counts replies and promotes itself, reconciles
    /// its log with a leader's `AppendEntries`, tracks peer progress as
    /// leader, and reacts to the election clock.  The commit index
    /// never decreases (commit monotonicity) and never passes the end
    /// of the log; proposing entries on a non-leader is the one rejected
    /// input.  The machine drives an unsnapshotted log: snapshot
    /// installation and transfer belong to the store and the wire, and a
    /// log restored from a snapshot is compacted by the driver before it
    /// reaches the machine.
    #[verifier::rlimit(100)]
    #[verifier::spinoff_prover]
    pub fn step(&mut self, log: &mut Log, envelope: &Envelope) -> (r: Result<(), String>)
        requires
            old(self).wf(),
            old(log).wf(),
            old(log).spec_snap() == 0,
            old(log).spec_last_index() + 1 < u64::MAX as int,
            envelope.message matches Message::AppendEntries { entries, .. } ==> old(
                log,
            ).spec_last_index() + entries@.len() + 1 < u64::MAX as int,
            envelope.message matches Message::AddEntries { entries } ==> old(
                log,
            ).spec_last_index() + entries@.len() + 1 < u64::MAX as int,
            old(self).commit_index <= old(log).spec_last_index(),
            envelope.message matches Message::AppendEntriesReply { reject, log_index } ==> (!reject
                ==> log_index is Some),
            (envelope.message matches Message::AppendEntriesReply { .. } && old(self).state
                == PeerState::Leader && !is_stale(*old(self), *envelope)) ==> exists|k: int|
                0 <= k < old(self).peers@.len() && (#[trigger] old(self).peers@[k]).identifier@
                    == envelope.source@,
            old(self).state == PeerState::Leader ==> old(log).spec_last_index() >= 1,
        ensures
            final(self).wf(),
            final(log).wf(),
            final(log).spec_snap() == 0,
            final(self).identifier == old(self).identifier,
            final(self).peers@.len() == old(self).peers@.len(),
            final(self).commit_index >= old(self).commit_index,
            final(self).commit_index <= final(log).spec_last_index(),
            ({
                let m0 = *old(self);
                let l0 = *old(log);
                let stored0 = l0.spec_last_index();
                (!is_stale(m0, *envelope) && !(envelope.message is AppendEntries)
                    && final(self).commit_index > m0.commit_index) ==> {
                    &&& final(self).commit_index <= stored0
                    &&& l0.term_at(final(self).commit_index as int) == final(self).term
                    &&& match_count(final(self).peers@, final(self).commit_index as int) + 1
                        >= spec_quorum(m0.peers@.len() as int)
                    &&& forall|i: int|
                        final(self).commit_index < i <= stored0 && #[trigger] l0.term_at(i)
                            == final(self).term ==> match_count(final(self).peers@, i) + 1
                            < spec_quorum(m0.peers@.len() as int)
                }
            }),
            forall|i: int|
                0 <= i < final(self).outbox@.len() ==> (#[trigger] final(self).outbox@[i]).source@
                    == old(self).identifier@,
            r is Err <==> (!is_stale(*old(self), *envelope) && envelope.message is AddEntries
                && old(self).state != PeerState::Leader),
            is_stale(*old(self), *envelope) ==> (final(self).outbox@.len() == 0
                && final(log).entries@ == old(log).entries@
                && *final(self) == (Machine {
                    outbox: final(self).outbox,
                    stored_index: final(self).stored_index,
                    ..*old(self)
                })),
            ({
                let m0 = *old(self);
                let l0 = *old(log);
                let stored0 = l0.spec_last_index();
                let q = spec_quorum(m0.peers@.len() as int);
                !is_stale(m0, *envelope) ==> match envelope.message {
                    Message::Vote { index } => {
                        let granted = grants_vote(m0, stored0, *envelope);
                        &&& final(log).entries@ == l0.entries@
                        &&& final(self).state == m0.state
                        &&& final(self).term == m0.term
                        &&& final(self).commit_index == m0.commit_index
                        &&& final(self).outbox@.len() == 1
                        &&& final(self).outbox@[0].destination@ == envelope.source@
                        &&& final(self).outbox@[0].term == m0.term
                        &&& final(self).outbox@[0].message == (Message::VoteReply {
                            reject: !granted,
                        })
                        &&& (granted ==> (final(self).voted_for matches Some(v) && v@
                            == envelope.source@))
                        &&& (!granted ==> final(self).voted_for == m0.voted_for)
                    },
                    Message::PreVote { index } => {
                        let granted = grants_vote(m0, stored0, *envelope);
                        &&& final(log).entries@ == l0.entries@
                        &&& final(self).state == m0.state
                        &&& final(self).term == m0.term
                        &&& final(self).commit_index == m0.commit_index
                        &&& final(self).voted_for == m0.voted_for
                        &&& final(self).outbox@.len() == 1
                        &&& final(self).outbox@[0].destination@ == envelope.source@
                        &&& final(self).outbox@[0].term == m0.term
                        &&& final(self).outbox@[0].message == (Message::PreVoteReply {
                            reject: !granted,
                        })
                    },
                    Message::VoteReply { reject } => {
                        let promoted = m0.state == PeerState::Candidate && !reject
                            && m0.vote_count + 1 >= q;
                        &&& (promoted ==> {
                            &&& final(self).state == PeerState::Leader
                            &&& final(self).term == m0.term
                            &&& final(log).entries@ =~= l0.entries@.push(
                                LogEntry { term: m0.term, entry: RegistryAction::Empty },
                            )
                            &&& final(self).outbox@.len() == m0.peers@.len()
                            &&& forall|k: int|
                                0 <= k < m0.peers@.len() ==> {
                                    let e = #[trigger] final(self).outbox@[k];
                                    &&& e.message is AppendEntries
                                    &&& e.destination@ == m0.peers@[k].identifier@
                                    &&& e.term == m0.term
                                    &&& (e.message matches Message::AppendEntries {
                                        leader_commit,
                                        prev_index,
                                        prev_term,
                                        entries,
                                    } ==> {
                                        &&& leader_commit == m0.commit_index
                                        &&& prev_index == vstd::math::max(stored0, 1)
                                        &&& prev_term == (if stored0 >= 1 {
                                            l0.entries@.last().term
                                        } else {
                                            m0.term
                                        })
                                        &&& entries_view(entries@) == (if stored0 >= 1 {
                                            seq![
                                                crate::log::LogEntryView {
                                                    term: m0.term,
                                                    entry: crate::types::ActionView::Empty,
                                                },
                                            ]
                                        } else {
                                            Seq::<crate::log::LogEntryView>::empty()
                                        })
                                    })
                                }
                        })
                        &&& (!promoted ==> final(self).state == m0.state && final(log).entries@
                            == l0.entries@ && final(self).outbox@.len() == 0)
                    },
                    Message::PreVoteReply { reject } => {
                        let promoted = m0.state == PeerState::PreCandidate && !reject
                            && m0.vote_count + 1 >= q;
                        &&& (promoted ==> final(self).state == (if q == 1 {
                            PeerState::Leader
                        } else {
                            PeerState::Candidate
                        }) && final(self).term == (if q == 1 {
                            m0.term
                        } else {
                            next_term(m0.term)
                        }) && (final(self).voted_for matches Some(v) && v@ == m0.identifier@))
                        &&& (promoted && q != 1 ==> {
                            &&& final(log).entries@ == l0.entries@
                            &&& final(self).outbox@.len() == m0.peers@.len()
                            &&& forall|k: int|
                                0 <= k < m0.peers@.len() ==> {
                                    let e = #[trigger] final(self).outbox@[k];
                                    &&& e.destination@ == m0.peers@[k].identifier@
                                    &&& e.term == next_term(m0.term)
                                    &&& e.message == (Message::Vote { index: stored0 as u64 })
                                }
                        })
                        &&& (!promoted ==> final(self).state == m0.state && final(log).entries@
                            == l0.entries@ && final(self).outbox@.len() == 0)
                    },
                    Message::Tick {  } => {
                        &&& final(self).state == tick_target(m0)
                        &&& (m0.state == PeerState::Follower && q == 1 ==> {
                            &&& final(self).term == m0.term
                            &&& final(log).entries@ =~= l0.entries@.push(
                                LogEntry { term: m0.term, entry: RegistryAction::Empty },
                            )
                            &&& final(self).outbox@.len() == m0.peers@.len()
                        })
                        &&& (m0.state == PeerState::Follower && q != 1 ==> {
                            &&& final(log).entries@ == l0.entries@
                            &&& final(self).term == m0.term
                            &&& !final(self).obedient
                            &&& final(self).outbox@.len() == m0.peers@.len()
                            &&& forall|k: int|
                                0 <= k < m0.peers@.len() ==> {
                                    let e = #[trigger] final(self).outbox@[k];
                                    &&& e.destination@ == m0.peers@[k].identifier@
                                    &&& e.term == next_term(m0.term)
                                    &&& e.message == (Message::PreVote { index: stored0 as u64 })
                                }
                        })
                        &&& (m0.state == PeerState::PreCandidate || m0.state == PeerState::Candidate
                            ==> final(self).outbox@.len() == 0 && final(log).entries@ == l0.entries@
                            && final(self).term == m0.term)
                        &&& (m0.state == PeerState::Leader ==> {
                            &&& final(log).entries@ == l0.entries@
                            &&& final(self).outbox@.len() == m0.peers@.len()
                            &&& forall|k: int|
                                0 <= k < m0.peers@.len() ==> (#[trigger] final(self).outbox@[k]).message is AppendEntries
                        })
                    },
                    Message::AppendEntries { leader_commit, prev_index, prev_term, entries } => {
                        let rejected = prev_index > stored0 || (prev_index > 0 && l0.term_at(
                            prev_index as int,
                        ) != prev_term);
                        &&& (rejected ==> {
                            &&& final(log).entries@ == l0.entries@
                            &&& final(self).state == m0.state
                            &&& final(self).outbox@.len() == 1
                            &&& final(self).outbox@[0].destination@ == envelope.source@
                            &&& final(self).outbox@[0].message == (Message::AppendEntriesReply {
                                reject: true,
                                log_index: None,
                            })
                        })
                        &&& (!rejected ==> {
                            let offset = spec_first_inconsistency(
                                l0.entries@.skip(prev_index as int),
                                entries@,
                            );
                            let cut = vstd::math::max(prev_index + offset, m0.commit_index as int);
                            let from = vstd::math::min(cut - prev_index, entries@.len() as int);
                            &&& entries_view(final(log).entries@) == entries_view(
                                l0.entries@.take(vstd::math::min(cut, l0.entries@.len() as int)),
                            ) + entries_view(entries@.skip(from))
                            &&& final(self).state == PeerState::Follower
                            &&& final(self).obedient
                            &&& final(self).leader matches Some(l) && l@ == envelope.source@
                            &&& final(self).outbox@.len() == 1
                            &&& final(self).outbox@[0].destination@ == envelope.source@
                            &&& (final(self).outbox@[0].message matches Message::AppendEntriesReply {
                                reject: rej,
                                log_index: li,
                            } && rej == false && (li matches Some(n) && n == final(log).spec_last_index()))
                        })
                    },
                    Message::AppendEntriesReply { reject, log_index } => {
                        &&& final(log).entries@ == l0.entries@
                        &&& final(self).outbox@.len() == 0
                        &&& final(self).state == m0.state
                        &&& (m0.state == PeerState::Leader && !reject ==> exists|k: int|
                            0 <= k < m0.peers@.len() && (#[trigger] final(self).peers@[k])
                                == (Peer {
                                match_index: vstd::math::min(
                                    log_index->Some_0 as int,
                                    stored0,
                                ) as u64,
                                next_index: (vstd::math::min(log_index->Some_0 as int, stored0)
                                    + 1) as u64,
                                ..m0.peers@[k]
                            }) && m0.peers@[k].identifier@ == envelope.source@)
                        &&& (m0.state != PeerState::Leader ==> final(self).peers@ == m0.peers@)
                    },
                    Message::AddEntries { entries } => {
                        &&& (m0.state == PeerState::Leader ==> {
                            &&& entries_view(final(log).entries@) == entries_view(l0.entries@)
                                + entries@.map(
                                |i: int, a: RegistryAction|
                                    crate::log::LogEntryView { term: m0.term, entry: a@ },
                            )
                            &&& final(self).outbox@.len() == m0.peers@.len()
                            &&& forall|k: int|
                                0 <= k < m0.peers@.len() ==> {
                                    let e = #[trigger] final(self).outbox@[k];
                                    &&& e.message is AppendEntries
                                    &&& e.destination@ == m0.peers@[k].identifier@
                                    &&& e.term == m0.term
                                }
                        })
                        &&& (m0.state != PeerState::Leader ==> final(log).entries@ == l0.entries@
                            && final(self).outbox@.len() == 0)
                    },
                }
            }),
    {
        self.outbox = Vec::new();
        log.truncate_index = None;
        self.stored_index = log.last_index();
        let ghost l1 = *log;
        if envelope.term > 0 && envelope.term < self.term {
            return Ok(());
        }
        match &envelope.message {
            Message::AddEntries { entries } => {
                if matches!(self.state, PeerState::Leader) {
                    let ghost t0 = self.term;
                    let ghost mapped = entries@.map(
                        |j: int, a: RegistryAction| crate::log::LogEntryView { term: t0, entry: a@ },
                    );
                    let n = entries.len();
                    let mut i: usize = 0;
                    proof {
                        assert(entries_view(log.entries@) =~= entries_view(old(log).entries@)
                            + mapped.take(0));
                    }
                    while i < n
                        invariant
                            self.wf(),
                            log.wf(),
                            log.spec_snap() == 0,
                            old(log).spec_snap() == 0,
                            self.state == PeerState::Leader,
                            n == entries@.len(),
                            0 <= i <= n,
                            t0 == self.term,
                            mapped == entries@.map(
                                |j: int, a: RegistryAction|
                                    crate::log::LogEntryView { term: t0, entry: a@ },
                            ),
                            *self == (Machine {
                                stored_index: self.stored_index,
                                outbox: self.outbox,
                                ..*old(self)
                            }),
                            self.outbox@.len() == 0,
                            self.stored_index == old(log).spec_last_index(),
                            self.stored_index <= log.spec_last_index(),
                            log.spec_last_index() == old(log).spec_last_index() + i,
                            old(log).spec_last_index() + entries@.len() + 1 < u64::MAX as int,
                            log.spec_last_index() >= 1,
                            entries_view(log.entries@) == entries_view(old(log).entries@)
                                + mapped.take(i as int),
                        decreases n - i,
                    {
                        let ghost pre = log.entries@;
                        let e = LogEntry { term: self.term, entry: entries[i].duplicate() };
                        proof {
                            assert(mapped[i as int] == (crate::log::LogEntryView {
                                term: t0,
                                entry: entries@[i as int]@,
                            }));
                            assert(e@ == mapped[i as int]);
                        }
                        log.append(e);
                        proof {
                            assert(log.entries@ == pre.push(e));
                            assert(mapped.take(i + 1).drop_last() =~= mapped.take(i as int));
                            assert(entries_view(log.entries@) =~= entries_view(old(log).entries@)
                                + mapped.take(i + 1)) by {
                                assert forall|j: int|
                                    0 <= j < log.entries@.len() implies entries_view(
                                    log.entries@,
                                )[j] == (entries_view(old(log).entries@) + mapped.take(i + 1))[j]
                                    by {
                                    assert(entries_view(log.entries@)[j] == log.entries@[j]@);
                                    if j < pre.len() {
                                        assert(log.entries@[j] == pre[j]);
                                        assert(entries_view(pre)[j] == pre[j]@);
                                    } else {
                                        assert(log.entries@[j] == e);
                                    }
                                }
                            }
                        }
                        i = i + 1;
                    }
                    proof {
                        assert(mapped.take(n as int) =~= mapped);
                    }
                    self.maybe_commit(log);
                    self.broadcast_entries(log);
                proof {
                    assert(forall|i: int|
                        0 <= i < self.outbox@.len() ==> (#[trigger] self.outbox@[i]).source@
                            == old(self).identifier@);
                }
                    proof {
                        assert(entries_view(log.entries@) == entries_view(old(log).entries@)
                            + entries@.map(
                            |j: int, a: RegistryAction|
                                crate::log::LogEntryView { term: old(self).term, entry: a@ },
                        )) by {
                            assert(mapped =~= entries@.map(
                                |j: int, a: RegistryAction|
                                    crate::log::LogEntryView { term: old(self).term, entry: a@ },
                            ));
                        }
                        assert(self.outbox@.len() == old(self).peers@.len());
                        assert(forall|k: int|
                            0 <= k < old(self).peers@.len() ==> (#[trigger] self.outbox@[k]).message is AppendEntries);
                    }
                proof {
                    if self.commit_index > old(self).commit_index {
                        assert(self.peers@.len() == old(self).peers@.len());
                        assert(self.commit_index <= old(log).spec_last_index());
                        assert(old(log).term_at(self.commit_index as int) == self.term) by {
                            assert(l1.term_at(self.commit_index as int) == old(log).term_at(
                                self.commit_index as int,
                            ));
                            assert(entries_view(log.entries@)[self.commit_index - 1]
                                == entries_view(old(log).entries@)[self.commit_index - 1]);
                            assert(entries_view(log.entries@)[self.commit_index - 1]
                                == log.entries@[self.commit_index - 1]@);
                            assert(entries_view(old(log).entries@)[self.commit_index - 1]
                                == old(log).entries@[self.commit_index - 1]@);
                        }
                        assert(match_count(self.peers@, self.commit_index as int) + 1
                            >= spec_quorum(old(self).peers@.len() as int));
                        assert forall|i: int|
                            self.commit_index < i <= old(log).spec_last_index() && old(
                                log,
                            ).term_at(i) == self.term implies match_count(self.peers@, i) + 1
                            < spec_quorum(old(self).peers@.len() as int) by {
                            assert(l1.term_at(i) == old(log).term_at(i));
                            assert(entries_view(log.entries@)[i - 1] == entries_view(
                                old(log).entries@,
                            )[i - 1]);
                            assert(entries_view(log.entries@)[i - 1] == log.entries@[i - 1]@);
                            assert(entries_view(old(log).entries@)[i - 1] == old(log).entries@[i
                                - 1]@);
                            assert(log.term_at(i) == old(log).term_at(i));
                        }
                    }
                }
                    Ok(())
                } else {
                    Err("Rejected: Not leader".to_owned())
                }
            },
            Message::Vote { .. } => {
                if !self.can_vote(envelope) {
                    let t = self.term;
                    self.reply(envelope, t, Message::VoteReply { reject: true });
                proof {
                    assert(forall|i: int|
                        0 <= i < self.outbox@.len() ==> (#[trigger] self.outbox@[i]).source@
                            == old(self).identifier@);
                }
                    Ok(())
                } else {
                    let t = self.term;
                    self.reply(envelope, t, Message::VoteReply { reject: false });
                    self.voted_for = Some(envelope.source.clone());
                    proof {
                        assert(grants_vote(
                            *old(self),
                            old(log).spec_last_index(),
                            *envelope,
                        ));
                        assert(self.outbox@.len() == 1);
                        assert(self.outbox@[0].message == (Message::VoteReply { reject: false }));
                        assert(self.voted_for matches Some(v) && v@ == envelope.source@);
                        assert(self.state == old(self).state);
                    }
                proof {
                    assert(forall|i: int|
                        0 <= i < self.outbox@.len() ==> (#[trigger] self.outbox@[i]).source@
                            == old(self).identifier@);
                }
                    Ok(())
                }
            },
            Message::PreVote { .. } => {
                if !self.can_vote(envelope) {
                    let t = self.term;
                    self.reply(envelope, t, Message::PreVoteReply { reject: true });
                } else {
                    let t = self.term;
                    self.reply(envelope, t, Message::PreVoteReply { reject: false });
                }
                Ok(())
            },
            Message::VoteReply { reject } => {
                if matches!(self.state, PeerState::Candidate) && !*reject {
                    if self.vote_count < self.quorum() {
                        self.vote_count = self.vote_count + 1;
                    }
                    if self.vote_count >= self.quorum() {
                        self.become_leader(log);
                    }
                }
                proof {
                    assert(forall|i: int|
                        0 <= i < self.outbox@.len() ==> (#[trigger] self.outbox@[i]).source@
                            == old(self).identifier@);
                    let promoted = old(self).state == PeerState::Candidate
                        && !envelope.message->VoteReply_reject && old(self).vote_count + 1
                        >= spec_quorum(old(self).peers@.len() as int);
                    if promoted {
                        assert(self.state == PeerState::Leader);
                        assert(log.entries@ =~= old(log).entries@.push(
                            LogEntry { term: old(self).term, entry: RegistryAction::Empty },
                        ));
                        assert(self.outbox@.len() == old(self).peers@.len());
                    } else {
                        assert(self.state == old(self).state);
                        assert(log.entries@ == old(log).entries@);
                        assert(self.outbox@.len() == 0);
                    }
                }
                proof {
                    if self.commit_index > old(self).commit_index {
                        assert(self.peers@.len() == old(self).peers@.len());
                        assert(self.commit_index <= old(log).spec_last_index());
                        assert(old(log).term_at(self.commit_index as int) == self.term) by {
                            assert(l1.term_at(self.commit_index as int) == old(log).term_at(
                                self.commit_index as int,
                            ));
                            assert(entries_view(log.entries@)[self.commit_index - 1]
                                == entries_view(old(log).entries@)[self.commit_index - 1]);
                            assert(entries_view(log.entries@)[self.commit_index - 1]
                                == log.entries@[self.commit_index - 1]@);
                            assert(entries_view(old(log).entries@)[self.commit_index - 1]
                                == old(log).entries@[self.commit_index - 1]@);
                        }
                        assert(match_count(self.peers@, self.commit_index as int) + 1
                            >= spec_quorum(old(self).peers@.len() as int));
                        assert forall|i: int|
                            self.commit_index < i <= old(log).spec_last_index() && old(
                                log,
                            ).term_at(i) == self.term implies match_count(self.peers@, i) + 1
                            < spec_quorum(old(self).peers@.len() as int) by {
                            assert(l1.term_at(i) == old(log).term_at(i));
                            assert(entries_view(log.entries@)[i - 1] == entries_view(
                                old(log).entries@,
                            )[i - 1]);
                            assert(entries_view(log.entries@)[i - 1] == log.entries@[i - 1]@);
                            assert(entries_view(old(log).entries@)[i - 1] == old(log).entries@[i
                                - 1]@);
                            assert(log.term_at(i) == old(log).term_at(i));
                        }
                    }
                }
                Ok(())
            },
            Message::PreVoteReply { reject } => {
                if matches!(self.state, PeerState::PreCandidate) && !*reject {
                    if self.vote_count < self.quorum() {
                        self.vote_count = self.vote_count + 1;
                    }
                    if self.vote_count >= self.quorum() {
                        self.become_candidate(log);
                    }
                }
                proof {
                    assert(forall|i: int|
                        0 <= i < self.outbox@.len() ==> (#[trigger] self.outbox@[i]).source@
                            == old(self).identifier@);
                    let q = spec_quorum(old(self).peers@.len() as int);
                    let promoted = old(self).state == PeerState::PreCandidate
                        && !envelope.message->PreVoteReply_reject && old(self).vote_count + 1 >= q;
                    if promoted {
                        assert(self.state == (if q == 1 {
                            PeerState::Leader
                        } else {
                            PeerState::Candidate
                        }));
                        assert(self.term == (if q == 1 {
                            old(self).term
                        } else {
                            next_term(old(self).term)
                        }));
                        if q != 1 {
                            assert(log.entries@ == old(log).entries@);
                            assert(self.outbox@.len() == old(self).peers@.len());
                            assert(forall|k: int|
                                0 <= k < old(self).peers@.len() ==> {
                                    let e = #[trigger] self.outbox@[k];
                                    &&& e.destination@ == old(self).peers@[k].identifier@
                                    &&& e.term == next_term(old(self).term)
                                    &&& e.message == (Message::Vote {
                                        index: old(log).spec_last_index() as u64,
                                    })
                                });
                        }
                    } else {
                        assert(self.state == old(self).state);
                        assert(self.outbox@.len() == 0);
                    }
                }
                proof {
                    if self.commit_index > old(self).commit_index {
                        assert(self.peers@.len() == old(self).peers@.len());
                        assert(self.commit_index <= old(log).spec_last_index());
                        assert(old(log).term_at(self.commit_index as int) == self.term) by {
                            assert(l1.term_at(self.commit_index as int) == old(log).term_at(
                                self.commit_index as int,
                            ));
                            assert(entries_view(log.entries@)[self.commit_index - 1]
                                == entries_view(old(log).entries@)[self.commit_index - 1]);
                            assert(entries_view(log.entries@)[self.commit_index - 1]
                                == log.entries@[self.commit_index - 1]@);
                            assert(entries_view(old(log).entries@)[self.commit_index - 1]
                                == old(log).entries@[self.commit_index - 1]@);
                        }
                        assert(match_count(self.peers@, self.commit_index as int) + 1
                            >= spec_quorum(old(self).peers@.len() as int));
                        assert forall|i: int|
                            self.commit_index < i <= old(log).spec_last_index() && old(
                                log,
                            ).term_at(i) == self.term implies match_count(self.peers@, i) + 1
                            < spec_quorum(old(self).peers@.len() as int) by {
                            assert(l1.term_at(i) == old(log).term_at(i));
                            assert(entries_view(log.entries@)[i - 1] == entries_view(
                                old(log).entries@,
                            )[i - 1]);
                            assert(entries_view(log.entries@)[i - 1] == log.entries@[i - 1]@);
                            assert(entries_view(old(log).entries@)[i - 1] == old(log).entries@[i
                                - 1]@);
                            assert(log.term_at(i) == old(log).term_at(i));
                        }
                    }
                }
                Ok(())
            },
            Message::AppendEntries { leader_commit, prev_index, prev_term, entries } => {
                if *prev_index > self.stored_index {
                    let t = self.term;
                    self.reply(
                        envelope,
                        t,
                        Message::AppendEntriesReply { reject: true, log_index: None },
                    );
                    return Ok(());
                }
                if *prev_index > log.snapshot_boundary() && log.get(*prev_index).term != *prev_term {
                    let t = self.term;
                    self.reply(
                        envelope,
                        t,
                        Message::AppendEntriesReply { reject: true, log_index: None },
                    );
                    return Ok(());
                }
                match self.state {
                    PeerState::Follower => {},
                    _ => {
                        self.become_follower(envelope.term, Some(envelope.source.clone()));
                    },
                }
                self.obedient = true;
                self.leader = Some(envelope.source.clone());
                let tail = log.tail_from(*prev_index);
                let theirs = duplicate_entries(entries);
                proof {
                    assert(entries_view(log.entries@).skip(*prev_index as int) =~= entries_view(
                        log.entries@.skip(*prev_index as int),
                    )) by {
                        assert forall|j: int|
                            0 <= j < log.entries@.len() - *prev_index implies entries_view(
                            log.entries@,
                        ).skip(*prev_index as int)[j] == entries_view(
                            log.entries@.skip(*prev_index as int),
                        )[j] by {
                            assert(entries_view(log.entries@)[*prev_index + j] == log.entries@[*prev_index
                                + j]@);
                            assert(entries_view(log.entries@.skip(*prev_index as int))[j]
                                == log.entries@.skip(*prev_index as int)[j]@);
                        }
                    }
                    assert(entries_view(tail@) == entries_view(log.entries@.skip(*prev_index as int)));
                    lemma_fci_of_views(tail@, log.entries@.skip(*prev_index as int), theirs@, entries@);
                }
                proof {
                    assert(entries_view(theirs@).len() == theirs@.len());
                    assert(entries_view(entries@).len() == entries@.len());
                }
                let offset = find_first_inconsistency(tail, theirs);
                let ghost off = offset as int;
                let prev_adjusted = *prev_index + offset;
                let cut = if prev_adjusted >= self.commit_index {
                    prev_adjusted
                } else {
                    self.commit_index
                };
                let ghost cutg = vstd::math::max(*prev_index + off, old(self).commit_index as int);
                proof {
                    assert(cut as int == cutg);
                }
                if self.stored_index > cut {
                    log.truncate(cut);
                }
                proof {
                    assert(log.entries@ =~= old(log).entries@.take(
                        vstd::math::min(cutg, old(log).entries@.len() as int),
                    ));
                }
                let m = entries.len();
                proof {
                    assert(off <= entries@.len());
                }
                let from_entry = cut - *prev_index;
                let from: usize = if from_entry >= m as u64 {
                    m
                } else {
                    from_entry as usize
                };
                proof {
                    assert(from as int == vstd::math::min(cutg - *prev_index, entries@.len() as int));
                }
                let mut i: usize = from;
                while i < m
                    invariant
                        log.wf(),
                        log.spec_snap() == 0,
                        old(log).spec_snap() == 0,
                        m == entries@.len(),
                        0 <= from <= i <= m,
                        old(log).spec_last_index() + entries@.len() + 1 < u64::MAX as int,
                        entries_view(log.entries@) == entries_view(
                            old(log).entries@.take(
                                vstd::math::min(cutg, old(log).entries@.len() as int),
                            ),
                        ) + entries_view(entries@.subrange(from as int, i as int)),
                        log.spec_last_index() <= vstd::math::min(
                            cutg,
                            old(log).entries@.len() as int,
                        ) + i - from,
                    decreases m - i,
                {
                    let ghost pre = log.entries@;
                    let e = LogEntry {
                        term: entries[i].term,
                        entry: entries[i].entry.duplicate(),
                    };
                    proof {
                        assert(e@ == entries@[i as int]@);
                    }
                    log.append(e);
                    proof {
                        let kept = entries_view(
                            old(log).entries@.take(
                                vstd::math::min(cutg, old(log).entries@.len() as int),
                            ),
                        );
                        assert(log.entries@ == pre.push(e));
                        assert(entries_view(pre).len() == pre.len());
                        assert(entries_view(entries@.subrange(from as int, i as int)).len() == i
                            - from);
                        assert(pre.len() == kept.len() + i - from);
                        assert(entries_view(log.entries@) =~= kept + entries_view(
                            entries@.subrange(from as int, i + 1),
                        )) by {
                            assert forall|j: int|
                                0 <= j < log.entries@.len() implies entries_view(log.entries@)[j]
                                == (kept + entries_view(entries@.subrange(from as int, i + 1)))[j]
                                by {
                                assert(entries_view(log.entries@)[j] == log.entries@[j]@);
                                if j < pre.len() {
                                    assert(log.entries@[j] == pre[j]);
                                    assert(entries_view(pre)[j] == pre[j]@);
                                    if j >= kept.len() {
                                        assert(entries_view(entries@.subrange(from as int, i as int))[j
                                            - kept.len()] == entries@.subrange(from as int, i as int)[j
                                            - kept.len()]@);
                                        assert(entries_view(entries@.subrange(from as int, i + 1))[j
                                            - kept.len()] == entries@.subrange(from as int, i + 1)[j
                                            - kept.len()]@);
                                    }
                                } else {
                                    assert(log.entries@[j] == e);
                                    assert(entries_view(entries@.subrange(from as int, i + 1))[j
                                        - kept.len()] == entries@.subrange(from as int, i + 1)[j
                                        - kept.len()]@);
                                    assert(entries@.subrange(from as int, i + 1)[i - from]
                                        == entries@[i as int]);
                                }
                            }
                        }
                    }
                    i = i + 1;
                }
                proof {
                    assert(entries@.subrange(from as int, m as int) =~= entries@.skip(from as int));
                }
                self.stored_index = log.last_index();
                if *leader_commit > self.commit_index {
                    let target = if *leader_commit < self.stored_index {
                        *leader_commit
                    } else {
                        self.stored_index
                    };
                    if target > self.commit_index {
                        self.commit_index = target;
                    }
                }
                let t = self.term;
                let si = self.stored_index;
                self.reply(
                    envelope,
                    t,
                    Message::AppendEntriesReply { reject: false, log_index: Some(si) },
                );
                proof {
                    assert(entries_view(log.entries@) == entries_view(
                        old(log).entries@.take(
                            vstd::math::min(cutg, old(log).entries@.len() as int),
                        ),
                    ) + entries_view(entries@.skip(from as int)));
                    assert(off == spec_first_inconsistency(
                        old(log).entries@.skip(envelope.message->AppendEntries_prev_index as int),
                        entries@,
                    ));
                    assert(self.state == PeerState::Follower);
                    assert(self.outbox@.len() == 1);
                    assert(self.outbox@[0].message matches Message::AppendEntriesReply {
                        reject: rej,
                        log_index: li,
                    } && rej == false && (li matches Some(n) && n == log.spec_last_index()));
                }
                proof {
                    assert(forall|i: int|
                        0 <= i < self.outbox@.len() ==> (#[trigger] self.outbox@[i]).source@
                            == old(self).identifier@);
                }
                Ok(())
            },
            Message::AppendEntriesReply { reject, log_index } => {
                if matches!(self.state, PeerState::Leader) {
                    let n = self.peers.len();
                    let mut k: usize = 0;
                    let mut found: usize = n;
                    while k < n
                        invariant
                            n == self.peers@.len(),
                            0 <= k <= n,
                            found <= n,
                            self.peers == old(self).peers,
                            self.state == old(self).state,
                            self.term == old(self).term,
                            found == n ==> forall|j: int|
                                0 <= j < k ==> (#[trigger] self.peers@[j]).identifier@
                                    != envelope.source@,
                            found < n ==> self.peers@[found as int].identifier@
                                == envelope.source@,
                        decreases n - k,
                    {
                        if found == n && self.peers[k].identifier == envelope.source {
                            found = k;
                        }
                        k = k + 1;
                    }
                    if found < n {
                        if *reject {
                            if self.peers[found].next_index > 1 {
                                let old_peer = self.peers.remove(found);
                                let next_index = old_peer.next_index - 1;
                                self.peers.insert(
                                    found,
                                    Peer {
                                        identifier: old_peer.identifier,
                                        next_index,
                                        match_index: old_peer.match_index,
                                    },
                                );
                            }
                            return Ok(());
                        }
                        let li = match log_index {
                            Some(l) => *l,
                            None => 0,
                        };
                        let match_index = if li < self.stored_index {
                            li
                        } else {
                            self.stored_index
                        };
                        let old_peer = self.peers.remove(found);
                        self.peers.insert(
                            found,
                            Peer {
                                identifier: old_peer.identifier,
                                next_index: match_index + 1,
                                match_index,
                            },
                        );
                        proof {
                            assert(self.wf());
                        }
                        self.maybe_commit(log);
                        proof {
                            let li0 = envelope.message->AppendEntriesReply_log_index->Some_0;
                            let mv = vstd::math::min(li0 as int, old(log).spec_last_index());
                            assert(self.peers@[found as int] == (Peer {
                                match_index: mv as u64,
                                next_index: (mv + 1) as u64,
                                ..old(self).peers@[found as int]
                            }));
                            assert(old(self).peers@[found as int].identifier@ == envelope.source@);
                            assert(exists|k: int|
                                0 <= k < old(self).peers@.len() && (#[trigger] self.peers@[k])
                                    == (Peer {
                                    match_index: mv as u64,
                                    next_index: (mv + 1) as u64,
                                    ..old(self).peers@[k]
                                }) && old(self).peers@[k].identifier@ == envelope.source@);
                        }
                proof {
                    if self.commit_index > old(self).commit_index {
                        assert(self.peers@.len() == old(self).peers@.len());
                        assert(self.commit_index <= old(log).spec_last_index());
                        assert(old(log).term_at(self.commit_index as int) == self.term) by {
                            assert(l1.term_at(self.commit_index as int) == old(log).term_at(
                                self.commit_index as int,
                            ));
                            assert(entries_view(log.entries@)[self.commit_index - 1]
                                == entries_view(old(log).entries@)[self.commit_index - 1]);
                            assert(entries_view(log.entries@)[self.commit_index - 1]
                                == log.entries@[self.commit_index - 1]@);
                            assert(entries_view(old(log).entries@)[self.commit_index - 1]
                                == old(log).entries@[self.commit_index - 1]@);
                        }
                        assert(match_count(self.peers@, self.commit_index as int) + 1
                            >= spec_quorum(old(self).peers@.len() as int));
                        assert forall|i: int|
                            self.commit_index < i <= old(log).spec_last_index() && old(
                                log,
                            ).term_at(i) == self.term implies match_count(self.peers@, i) + 1
                            < spec_quorum(old(self).peers@.len() as int) by {
                            assert(l1.term_at(i) == old(log).term_at(i));
                            assert(entries_view(log.entries@)[i - 1] == entries_view(
                                old(log).entries@,
                            )[i - 1]);
                            assert(entries_view(log.entries@)[i - 1] == log.entries@[i - 1]@);
                            assert(entries_view(old(log).entries@)[i - 1] == old(log).entries@[i
                                - 1]@);
                            assert(log.term_at(i) == old(log).term_at(i));
                        }
                    }
                }
                    } else {
                        proof {
                            assert(envelope.message is AppendEntriesReply);
                            assert(old(self).state == PeerState::Leader);
                            assert(!is_stale(*old(self), *envelope));
                            assert(exists|k: int|
                                0 <= k < old(self).peers@.len() && (#[trigger] old(
                                    self,
                                ).peers@[k]).identifier@ == envelope.source@);
                            let k0 = choose|k: int|
                                0 <= k < old(self).peers@.len() && (#[trigger] old(
                                    self,
                                ).peers@[k]).identifier@ == envelope.source@;
                            assert(self.peers@[k0] == old(self).peers@[k0]);
                            assert(self.peers@[k0].identifier@ != envelope.source@);
                            assert(false);
                        }
                    }
                }
                Ok(())
            },
            Message::Tick {  } => {
                match self.state {
                    PeerState::Leader => {
                        self.broadcast_entries(log);
                    },
                    PeerState::Follower => {
                        self.become_pre_candidate(log);
                    },
                    PeerState::PreCandidate => {
                        let t = self.term;
                        self.become_follower(t, None);
                    },
                    PeerState::Candidate => {
                        let t = self.term;
                        self.become_follower(t, None);
                    },
                }
                proof {
                    assert(forall|i: int|
                        0 <= i < self.outbox@.len() ==> (#[trigger] self.outbox@[i]).source@
                            == old(self).identifier@);
                    let q = spec_quorum(old(self).peers@.len() as int);
                    assert(self.state == tick_target(*old(self)));
                    if old(self).state == PeerState::Follower && q != 1 {
                        assert(log.entries@ == old(log).entries@);
                        assert(self.term == old(self).term);
                        assert(!self.obedient);
                        assert(self.outbox@.len() == old(self).peers@.len());
                        assert(forall|k: int|
                            0 <= k < old(self).peers@.len() ==> {
                                let e = #[trigger] self.outbox@[k];
                                &&& e.destination@ == old(self).peers@[k].identifier@
                                &&& e.term == next_term(old(self).term)
                                &&& e.message == (Message::PreVote {
                                    index: old(log).spec_last_index() as u64,
                                })
                            });
                    }
                    if old(self).state == PeerState::Leader {
                        assert(log.entries@ == old(log).entries@);
                        assert(self.outbox@.len() == old(self).peers@.len());
                    }
                }
                proof {
                    if self.commit_index > old(self).commit_index {
                        assert(self.peers@.len() == old(self).peers@.len());
                        assert(self.commit_index <= old(log).spec_last_index());
                        assert(old(log).term_at(self.commit_index as int) == self.term) by {
                            assert(l1.term_at(self.commit_index as int) == old(log).term_at(
                                self.commit_index as int,
                            ));
                            assert(entries_view(log.entries@)[self.commit_index - 1]
                                == entries_view(old(log).entries@)[self.commit_index - 1]);
                            assert(entries_view(log.entries@)[self.commit_index - 1]
                                == log.entries@[self.commit_index - 1]@);
                            assert(entries_view(old(log).entries@)[self.commit_index - 1]
                                == old(log).entries@[self.commit_index - 1]@);
                        }
                        assert(match_count(self.peers@, self.commit_index as int) + 1
                            >= spec_quorum(old(self).peers@.len() as int));
                        assert forall|i: int|
                            self.commit_index < i <= old(log).spec_last_index() && old(
                                log,
                            ).term_at(i) == self.term implies match_count(self.peers@, i) + 1
                            < spec_quorum(old(self).peers@.len() as int) by {
                            assert(l1.term_at(i) == old(log).term_at(i));
                            assert(entries_view(log.entries@)[i - 1] == entries_view(
                                old(log).entries@,
                            )[i - 1]);
                            assert(entries_view(log.entries@)[i - 1] == log.entries@[i - 1]@);
                            assert(entries_view(old(log).entries@)[i - 1] == old(log).entries@[i
                                - 1]@);
                            assert(log.term_at(i) == old(log).term_at(i));
                        }
                    }
                }
                Ok(())
            },
        }
    }
}

/// Two runs with the same terms disagree at the same position: the
/// first inconsistency depends only on the entries' views.
proof fn lemma_fci_of_views(a1: Seq<LogEntry>, a2: Seq<LogEntry>, b1: Seq<LogEntry>, b2: Seq<LogEntry>)
    requires
        entries_view(a1) == entries_view(a2),
        entries_view(b1) == entries_view(b2),
    ensures
        spec_first_inconsistency(a1, b1) == spec_first_inconsistency(a2, b2),
    decreases a1.len(),
{
    assert(entries_view(a1).len() == a1.len() && entries_view(a2).len() == a2.len());
    assert(entries_view(b1).len() == b1.len() && entries_view(b2).len() == b2.len());
    assert(a1.len() == a2.len());
    assert(b1.len() == b2.len());
    if a1.len() > 0 && b1.len() > 0 {
        assert(a1[0].term == a2[0].term) by {
            assert(entries_view(a1)[0] == a1[0]@);
            assert(entries_view(a2)[0] == a2[0]@);
        }
        assert(b1[0].term == b2[0].term) by {
            assert(entries_view(b1)[0] == b1[0]@);
            assert(entries_view(b2)[0] == b2[0]@);
        }
        if a1[0].term == b1[0].term {
            assert(entries_view(a1.skip(1)) =~= entries_view(a2.skip(1))) by {
                assert forall|j: int| 0 <= j < a1.len() - 1 implies a1.skip(1)[j]@ == a2.skip(
                    1,
                )[j]@ by {
                    assert(entries_view(a1)[j + 1] == a1[j + 1]@);
                    assert(entries_view(a2)[j + 1] == a2[j + 1]@);
                }
            }
            assert(entries_view(b1.skip(1)) =~= entries_view(b2.skip(1))) by {
                assert forall|j: int| 0 <= j < b1.len() - 1 implies b1.skip(1)[j]@ == b2.skip(
                    1,
                )[j]@ by {
                    assert(entries_view(b1)[j + 1] == b1[j + 1]@);
                    assert(entries_view(b2)[j + 1] == b2[j + 1]@);
                }
            }
            lemma_fci_of_views(a1.skip(1), a2.skip(1), b1.skip(1), b2.skip(1));
        }
    }
}

/// The number of matched peers never exceeds the number of peers.
proof fn lemma_match_count_bound(peers: Seq<Peer>, i: int)
    ensures
        0 <= match_count(peers, i) <= peers.len(),
    decreases peers.len(),
{
    if peers.len() > 0 {
        lemma_match_count_bound(peers.drop_last(), i);
    }
}

/// Position of the first disagreement between our log tail and the
/// leader's entries: the first index where the terms differ, or the
/// length of the shorter run.
pub open spec fn spec_first_inconsistency(a: Seq<LogEntry>, b: Seq<LogEntry>) -> int
    decreases a.len(),
{
    if a.len() == 0 || b.len() == 0 {
        0
    } else if a[0].term != b[0].term {
        0
    } else {
        1 + spec_first_inconsistency(a.skip(1), b.skip(1))
    }
}

/// See [`spec_first_inconsistency`]; the follower uses this to keep the
/// prefix it already shares with the leader.
pub fn find_first_inconsistency(ours: Vec<LogEntry>, theirs: Vec<LogEntry>) -> (r: u64)
    requires
        ours@.len() < u64::MAX,
    ensures
        r == spec_first_inconsistency(ours@, theirs@),
        r <= ours@.len() && r <= theirs@.len(),
{
    proof {
        lemma_first_inconsistency_bounds(ours@, theirs@);
        assert(ours@.skip(0) =~= ours@);
        assert(theirs@.skip(0) =~= theirs@);
    }
    let mut i: usize = 0;
    let n = if ours.len() < theirs.len() {
        ours.len()
    } else {
        theirs.len()
    };
    while i < n
        invariant
            n == vstd::math::min(ours@.len() as int, theirs@.len() as int),
            0 <= i <= n,
            spec_first_inconsistency(ours@, theirs@) == i + spec_first_inconsistency(
                ours@.skip(i as int),
                theirs@.skip(i as int),
            ),
        decreases n - i,
    {
        if ours[i].term != theirs[i].term {
            proof {
                assert(ours@.skip(i as int)[0].term != theirs@.skip(i as int)[0].term);
            }
            return i as u64;
        }
        proof {
            assert(ours@.skip(i as int)[0].term == theirs@.skip(i as int)[0].term);
            assert(ours@.skip(i as int).len() > 0 && theirs@.skip(i as int).len() > 0);
            assert(ours@.skip(i as int).skip(1) =~= ours@.skip(i + 1));
            assert(theirs@.skip(i as int).skip(1) =~= theirs@.skip(i + 1));
        }
        i = i + 1;
    }
    proof {
        assert(ours@.skip(i as int).len() == 0 || theirs@.skip(i as int).len() == 0);
    }
    i as u64
}

proof fn lemma_first_inconsistency_bounds(a: Seq<LogEntry>, b: Seq<LogEntry>)
    ensures
        0 <= spec_first_inconsistency(a, b) <= a.len(),
        spec_first_inconsistency(a, b) <= b.len(),
    decreases a.len(),
{
    if a.len() > 0 && b.len() > 0 && a[0].term == b[0].term {
        lemma_first_inconsistency_bounds(a.skip(1), b.skip(1));
    }
}

} // verus!
