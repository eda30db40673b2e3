//! The durable, ordered log of committed actions.  Entries are numbered
//! from one; a snapshot may stand in for a prefix, in which case
//! `snapshot_index` is the number of the last entry it covers.
use vstd::prelude::*;

use crate::types::{ActionView, RegistryAction};

verus! {

/// Mathematical value of a [`LogEntry`].
pub ghost struct LogEntryView {
    pub term: u64,
    pub entry: ActionView,
}

/// One slot of the replicated log: the action and the term in which a
/// leader appended it.
#[derive(Debug, Clone, PartialEq, Eq, PartialOrd, Ord)]
pub struct LogEntry {
    pub term: u64,
    pub entry: RegistryAction,
}

impl View for LogEntry {
    type V = LogEntryView;

    open spec fn view(&self) -> LogEntryView {
        LogEntryView { term: self.term, entry: self.entry@ }
    }
}

impl LogEntry {
    /// An owned copy with the same mathematical value.
    pub fn duplicate(&self) -> (r: LogEntry)
        ensures
            r@ == self@,
    {
        LogEntry { term: self.term, entry: self.entry.duplicate() }
    }
}

/// Element-wise views of a run of log entries.
pub open spec fn entries_view(s: Seq<LogEntry>) -> Seq<LogEntryView> {
    s.map(|i: int, e: LogEntry| e@)
}

/// An owned copy of a run of log entries, value for value.
pub fn duplicate_entries(v: &Vec<LogEntry>) -> (r: Vec<LogEntry>)
    ensures
        entries_view(r@) == entries_view(v@),
{
    let mut r: Vec<LogEntry> = Vec::new();
    let mut i: usize = 0;
    while i < v.len()
        invariant
            0 <= i <= v@.len(),
            r@.len() == i,
            forall|j: int| 0 <= j < i ==> r@[j]@ == v@[j]@,
        decreases v@.len() - i,
    {
        r.push(v[i].duplicate());
        i = i + 1;
    }
    proof {
        assert(entries_view(r@) =~= entries_view(v@));
    }
    r
}

/// The log a node holds: live entries after an optional snapshot.
/// `truncate_index` remembers the last conflict truncation so the
/// driver can tell its durable store about it.
pub struct Log {
    pub entries: Vec<LogEntry>,
    pub snapshot_index: Option<u64>,
    pub snapshot_term: Option<u64>,
    pub truncate_index: Option<u64>,
}

impl Log {
    /// Number of the last entry the snapshot covers, zero without one.
    pub open spec fn spec_snap(&self) -> int {
        match self.snapshot_index {
            Some(i) => i as int,
            None => 0,
        }
    }

    /// Number of the last entry the log holds.
    pub open spec fn spec_last_index(&self) -> int {
        self.spec_snap() + self.entries@.len()
    }

    /// Entry numbers stay within the index type.
    pub open spec fn wf(&self) -> bool {
        self.spec_snap() + self.entries@.len() < u64::MAX as int
    }

    /// The term of the 1-based entry `i`, as specs see it.
    pub open spec fn term_at(&self, i: int) -> u64 {
        self.entries@[i - self.spec_snap() - 1].term
    }

    /// A log with no entries and no snapshot.
    pub fn new() -> (r: Log)
        ensures
            r.wf(),
            r.entries@.len() == 0,
            r.snapshot_index is None,
            r.snapshot_term is None,
            r.truncate_index is None,
    {
        Log { entries: Vec::new(), snapshot_index: None, snapshot_term: None, truncate_index: None }
    }

    /// Number of the last entry the snapshot covers, zero without one.
    pub fn snapshot_boundary(&self) -> (r: u64)
        ensures
            r == self.spec_snap(),
    {
        match self.snapshot_index {
            Some(i) => i,
            None => 0,
        }
    }

    /// Number of the last entry: snapshot prefix plus live entries.
    pub fn last_index(&self) -> (r: u64)
        requires
            self.wf(),
        ensures
            r == self.spec_last_index(),
    {
        let snapshot_index: u64 = match self.snapshot_index {
            Some(i) => i,
            None => 0,
        };
        snapshot_index + self.entries.len() as u64
    }

    /// Term of the last entry, falling back to the snapshot's term.
    pub fn last_term(&self) -> (r: u64)
        ensures
            self.entries@.len() > 0 ==> r == self.entries@.last().term,
            self.entries@.len() == 0 ==> r == (match self.snapshot_term {
                Some(t) => t,
                None => 0,
            }),
    {
        match self.entries.last() {
            Some(entry) => entry.term,
            None => match self.snapshot_term {
                Some(t) => t,
                None => 0,
            },
        }
    }

    /// The 1-based entry `index`; the caller keeps inside the live log.
    pub fn get(&self, index: u64) -> (r: &LogEntry)
        requires
            self.wf(),
            self.spec_snap() < index <= self.spec_last_index(),
        ensures
            *r == self.entries@[index - self.spec_snap() - 1],
    {
        let snapshot_index: u64 = match self.snapshot_index {
            Some(i) => i,
            None => 0,
        };
        let n = self.entries.len();
        let offset = index - snapshot_index - 1;
        proof {
            assert(offset < n);
        }
        &self.entries[offset as usize]
    }

    /// Append one entry at the tail.
    pub fn append(&mut self, entry: LogEntry)
        requires
            old(self).wf(),
            old(self).spec_last_index() + 1 < u64::MAX as int,
        ensures
            final(self).wf(),
            final(self).entries@ == old(self).entries@.push(entry),
            final(self).snapshot_index == old(self).snapshot_index,
            final(self).snapshot_term == old(self).snapshot_term,
            final(self).truncate_index == old(self).truncate_index,
    {
        self.entries.push(entry);
    }

    /// Drop every entry after the 1-based `index`, keeping `index`
    /// itself, and remember where the cut happened.
    pub fn truncate(&mut self, index: u64)
        requires
            old(self).wf(),
            index >= old(self).spec_snap(),
        ensures
            final(self).wf(),
            final(self).entries@ == old(self).entries@.take(
                vstd::math::min(index - old(self).spec_snap(), old(self).entries@.len() as int),
            ),
            final(self).spec_last_index() == vstd::math::min(
                index as int,
                old(self).spec_last_index(),
            ),
            final(self).snapshot_index == old(self).snapshot_index,
            final(self).snapshot_term == old(self).snapshot_term,
            final(self).truncate_index == Some(index),
    {
        self.truncate_index = Some(index);
        let snapshot_index: u64 = match self.snapshot_index {
            Some(i) => i,
            None => 0,
        };
        let keep_entries = index - snapshot_index;
        let keep: usize = if keep_entries >= self.entries.len() as u64 {
            self.entries.len()
        } else {
            keep_entries as usize
        };
        self.entries.truncate(keep);
        proof {
            assert(self.entries@ =~= old(self).entries@.take(
                vstd::math::min(index - old(self).spec_snap(), old(self).entries@.len() as int),
            ));
        }
    }

    /// Owned copies of the entries strictly after the 1-based `index`.
    pub fn tail_from(&self, index: u64) -> (r: Vec<LogEntry>)
        requires
            self.wf(),
            index >= self.spec_snap(),
        ensures
            entries_view(r@) == entries_view(self.entries@).skip(
                vstd::math::min(index - self.spec_snap(), self.entries@.len() as int),
            ),
    {
        let snapshot_index: u64 = match self.snapshot_index {
            Some(i) => i,
            None => 0,
        };
        let from_entry = index - snapshot_index;
        let from: usize = if from_entry >= self.entries.len() as u64 {
            self.entries.len()
        } else {
            from_entry as usize
        };
        let mut r: Vec<LogEntry> = Vec::new();
        let mut i: usize = from;
        while i < self.entries.len()
            invariant
                self.wf(),
                from <= i <= self.entries@.len(),
                r@.len() == i - from,
                forall|j: int| 0 <= j < r@.len() ==> r@[j]@ == self.entries@[from + j]@,
            decreases self.entries@.len() - i,
        {
            r.push(self.entries[i].duplicate());
            i = i + 1;
        }
        proof {
            assert(entries_view(r@) =~= entries_view(self.entries@).skip(
                vstd::math::min(index - self.spec_snap(), self.entries@.len() as int),
            ));
        }
        r
    }
}

} // verus!
