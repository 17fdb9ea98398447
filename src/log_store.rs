use vstd::prelude::*;
use crate::message::LogEntry;
use crate::raft_error::RaftError;

verus! {

/// Where a snapshot ends, and when it was taken (seconds).
#[derive(Clone, Copy, Debug)]
pub struct SnapshotMetadata {
    pub last_index: u64,
    pub last_term: u64,
    pub timestamp: u64,
}

/// A snapshot as it is persisted: its metadata and the encoded entries.
pub struct Snapshot {
    pub metadata: SnapshotMetadata,
    pub data: Vec<u8>,
}

/// Entries numbered densely from `first`.
pub open spec fn dense(s: Seq<LogEntry>, first: int) -> bool {
    forall|i: int| 0 <= i < s.len() ==> (#[trigger] s[i]).index == first + i
}

/// An append-only log held in memory. Entries up to `offset` have been
/// compacted into a snapshot; the rest are in `logs`, numbered from
/// `offset + 1`.
pub struct MemLogStore {
    pub logs: Vec<LogEntry>,
    pub offset: u64,
    pub committed_index: u64,
    pub current_snapshot: Option<SnapshotMetadata>,
}

impl MemLogStore {
    pub open spec fn last(&self) -> int {
        self.offset + self.logs@.len()
    }

    pub open spec fn wf(&self) -> bool {
        &&& self.last() <= u64::MAX
        &&& dense(self.logs@, self.offset + 1)
        &&& self.offset <= self.committed_index <= self.last()
    }

    /// The entry held at `index`, if any.
    pub open spec fn entry(&self, index: int) -> Option<LogEntry> {
        if self.offset < index <= self.last() {
            Some(self.logs@[index - self.offset - 1])
        } else {
            None
        }
    }

    /// The term at `index`: zero at index zero; that of the snapshot's last
    /// entry where the log begins right after it.
    pub open spec fn term_of(&self, index: int) -> Option<u64> {
        if index == 0 {
            Some(0u64)
        } else {
            match self.entry(index) {
                Some(e) => Some(e.term),
                None => match self.current_snapshot {
                    Some(m) => if m.last_index == index && index == self.offset { Some(m.last_term) } else { None },
                    None => None,
                },
            }
        }
    }

    /// The term of the last entry: that of the snapshot where all entries
    /// are compacted, zero for an empty log.
    pub open spec fn last_term_spec(&self) -> u64 {
        if self.logs@.len() > 0 {
            self.logs@.last().term
        } else {
            match self.current_snapshot {
                Some(m) => m.last_term,
                None => 0,
            }
        }
    }

    /// An empty log.
    pub fn new() -> (r: Self)
        ensures
            r.wf(),
            r.logs@.len() == 0,
            r.offset == 0,
            r.committed_index == 0,
            r.current_snapshot is None,
    {
        MemLogStore { logs: Vec::new(), offset: 0, committed_index: 0, current_snapshot: None }
    }

    /// The index of the last entry; zero for an empty log.
    pub fn last_index(&self) -> (r: Result<u64, RaftError>)
        requires
            self.wf(),
        ensures
            r == Ok::<u64, RaftError>(self.last() as u64),
    {
        Ok(self.offset + self.logs.len() as u64)
    }

    /// The term of the last entry: that of the snapshot where all entries
    /// are compacted, zero for an empty log.
    pub fn last_term(&self) -> (r: Result<u64, RaftError>)
        requires
            self.wf(),
        ensures
            r == Ok::<u64, RaftError>(self.last_term_spec()),
    {
        let n = self.logs.len();
        if n > 0 {
            Ok(self.logs[n - 1].term)
        } else {
            match &self.current_snapshot {
                Some(m) => Ok(m.last_term),
                None => Ok(0),
            }
        }
    }

    pub fn committed_index(&self) -> (r: Result<u64, RaftError>)
        ensures
            r == Ok::<u64, RaftError>(self.committed_index),
    {
        Ok(self.committed_index)
    }

    /// The entry at `index`, if the log holds it.
    pub fn get(&self, index: u64) -> (r: Result<Option<LogEntry>, RaftError>)
        requires
            self.wf(),
        ensures
            r matches Ok(o) && match o {
                Some(e) => self.entry(index as int) matches Some(x) && e.term == x.term && e.index == x.index
                    && e.data@ == x.data@ && e.timestamp == x.timestamp,
                None => self.entry(index as int) is None,
            },
    {
        if index <= self.offset || index - self.offset > self.logs.len() as u64 {
            return Ok(None);
        }
        let i = (index - self.offset - 1) as usize;
        Ok(Some(self.logs[i].duplicate()))
    }

    /// The term at `index`: zero at index zero, `None` where the log holds
    /// no entry there (the snapshot's last entry counts).
    pub fn term_at(&self, index: u64) -> (r: Option<u64>)
        requires
            self.wf(),
        ensures
            r == self.term_of(index as int),
    {
        if index == 0 {
            return Some(0);
        }
        if index > self.offset && index - self.offset <= self.logs.len() as u64 {
            let i = (index - self.offset - 1) as usize;
            return Some(self.logs[i].term);
        }
        match &self.current_snapshot {
            Some(m) => if m.last_index == index && index == self.offset { Some(m.last_term) } else { None },
            None => None,
        }
    }

    /// Copies of the entries with indices from `start` to `end`, both
    /// included, that the log holds.
    pub fn get_range(&self, start: u64, end: u64) -> (r: Result<Vec<LogEntry>, RaftError>)
        requires
            self.wf(),
        ensures
            r matches Ok(v) && ({
                let lo = if start > self.offset { start as int } else { self.offset + 1 };
                let hi = if end < self.last() { end as int } else { self.last() };
                &&& v@.len() == (if lo <= hi { hi - lo + 1 } else { 0 })
                &&& forall|i: int| 0 <= i < v@.len() ==> (#[trigger] v@[i]).index == lo + i
                    && v@[i].term == self.logs@[lo + i - self.offset - 1].term
                    && v@[i].data@ == self.logs@[lo + i - self.offset - 1].data@
                    && v@[i].timestamp == self.logs@[lo + i - self.offset - 1].timestamp
            }),
    {
        let len = self.logs.len() as u64;
        let last = self.offset + len;
        let mut v: Vec<LogEntry> = Vec::new();
        if len == 0 || end <= self.offset || start > last || start > end {
            return Ok(v);
        }
        let sp: usize = if start > self.offset { (start - self.offset - 1) as usize } else { 0 };
        let ep: usize = if end < last { (end - self.offset) as usize } else { self.logs.len() };
        let ghost lo = if start > self.offset { start as int } else { self.offset + 1 };
        let mut p: usize = sp;
        while p < ep
            invariant
                self.wf(),
                sp <= p <= ep <= self.logs@.len(),
                lo == self.offset + 1 + sp,
                v@.len() == p - sp,
                forall|j: int| 0 <= j < v@.len() ==> (#[trigger] v@[j]).index == lo + j
                    && v@[j].term == self.logs@[lo + j - self.offset - 1].term
                    && v@[j].data@ == self.logs@[lo + j - self.offset - 1].data@
                    && v@[j].timestamp == self.logs@[lo + j - self.offset - 1].timestamp,
            decreases ep - p,
        {
            let e = self.logs[p].duplicate();
            v.push(e);
            p = p + 1;
        }
        Ok(v)
    }

    /// Drops every entry at `index` or later, lowering the commit pointer to
    /// the new end where it stood beyond it. Index zero, or one past the
    /// end, changes nothing; entries already compacted cannot be dropped.
    pub fn delete_from(&mut self, index: u64) -> (r: Result<(), RaftError>)
        requires
            old(self).wf(),
        ensures
            final(self).wf(),
            r is Err <==> (index != 0 && index <= old(self).offset),
            r is Err || index == 0 || index > old(self).last() ==> *final(self) == *old(self),
            r is Ok && index != 0 && index <= old(self).last() ==> {
                &&& final(self).logs@ == old(self).logs@.subrange(0, index - old(self).offset - 1)
                &&& final(self).offset == old(self).offset
                &&& final(self).current_snapshot == old(self).current_snapshot
                &&& final(self).committed_index == (if old(self).committed_index >= index {
                    (index - 1) as u64
                } else {
                    old(self).committed_index
                })
            },
    {
        if index == 0 {
            return Ok(());
        }
        if index <= self.offset {
            return Err(RaftError::LogNotFound(index));
        }
        if index - self.offset > self.logs.len() as u64 {
            return Ok(());
        }
        self.logs.truncate((index - self.offset - 1) as usize);
        let last = self.offset + self.logs.len() as u64;
        if self.committed_index > last {
            self.committed_index = last;
        }
        Ok(())
    }

    /// Appends entries numbered densely from where they start. Entries
    /// starting at or before the end replace the tail from there; a start
    /// beyond the end is a gap, refused.
    pub fn append(&mut self, entries: Vec<LogEntry>) -> (r: Result<u64, RaftError>)
        requires
            old(self).wf(),
        ensures
            final(self).wf(),
            entries@.len() == 0 ==> r == Ok::<u64, RaftError>(old(self).last() as u64) && *final(self) == *old(self),
            entries@.len() > 0 ==> ({
                let first = entries@[0].index as int;
                let ok = old(self).offset < first <= old(self).last() + 1
                    && dense(entries@, first)
                    && first - 1 + entries@.len() <= u64::MAX;
                &&& r is Ok <==> ok
                &&& r is Err ==> *final(self) == *old(self)
                &&& first > old(self).last() + 1 ==> r == Err::<u64, RaftError>(RaftError::LogNotFound((old(self).last() + 1) as u64))
                &&& r matches Ok(n) ==> {
                    &&& final(self).logs@ == old(self).logs@.subrange(0, first - old(self).offset - 1) + entries@
                    &&& final(self).offset == old(self).offset
                    &&& n == final(self).last()
                    &&& final(self).current_snapshot == old(self).current_snapshot
                    &&& final(self).committed_index == (if old(self).committed_index >= first {
                        (first - 1) as u64
                    } else {
                        old(self).committed_index
                    })
                }
            }),
    {
        let last = self.offset + self.logs.len() as u64;
        if entries.len() == 0 {
            return Ok(last);
        }
        let first = entries[0].index;
        if first > last && first - last > 1 {
            return Err(RaftError::LogNotFound(last + 1));
        }
        if first <= self.offset {
            return Err(RaftError::LogNotFound(first));
        }
        let n = entries.len();
        if (n as u64) > u64::MAX - (first - 1) {
            return Err(RaftError::State(String::from_str("log index overflow")));
        }
        let mut i: usize = 0;
        while i < n
            invariant
                n == entries@.len(),
                i <= n,
                first == entries@[0].index,
                first - 1 + n <= u64::MAX,
                forall|j: int| 0 <= j < i ==> (#[trigger] entries@[j]).index == first + j,
                self.wf(),
                *self == *old(self),
                self.offset < first <= self.last() + 1,
            decreases n - i,
        {
            if entries[i].index != first + i as u64 {
                return Err(RaftError::State(String::from_str("entries are not contiguous")));
            }
            i = i + 1;
        }
        let _ = self.delete_from(first);
        let mut entries = entries;
        let ghost kept = self.logs@;
        let ghost added = entries@;
        self.logs.append(&mut entries);
        proof {
            assert(self.logs@ == kept + added);
            assert(dense(self.logs@, self.offset + 1));
        }
        Ok(self.offset + self.logs.len() as u64)
    }

    /// Marks entries up to `index` committed. Zero changes nothing; an index
    /// beyond the end or below the current commit pointer is refused.
    pub fn commit(&mut self, index: u64) -> (r: Result<(), RaftError>)
        requires
            old(self).wf(),
        ensures
            final(self).wf(),
            index == 0 ==> r is Ok && *final(self) == *old(self),
            index != 0 ==> (r is Ok <==> (index <= old(self).last() && index >= old(self).committed_index)),
            index != 0 && index > old(self).last() ==> r == Err::<(), RaftError>(RaftError::LogNotFound(index)),
            index != 0 && index <= old(self).last() && index < old(self).committed_index ==> r matches Err(RaftError::State(_)),
            r is Err ==> *final(self) == *old(self),
            index != 0 && r is Ok ==> *final(self) == (MemLogStore { committed_index: index, ..*old(self) }),
            final(self).committed_index >= old(self).committed_index,
    {
        if index == 0 {
            return Ok(());
        }
        if index > self.offset + self.logs.len() as u64 {
            return Err(RaftError::LogNotFound(index));
        }
        if index < self.committed_index {
            return Err(RaftError::State(String::from_str("cannot commit below the committed index")));
        }
        self.committed_index = index;
        Ok(())
    }

    /// Compacts the committed entries that the log still holds into a
    /// snapshot stamped `timestamp`, handing back its metadata and those
    /// entries for the caller to persist. Nothing is done where nothing is
    /// committed beyond the last snapshot.
    pub fn snapshot(&mut self, timestamp: u64) -> (r: Result<Option<(SnapshotMetadata, Vec<LogEntry>)>, RaftError>)
        requires
            old(self).wf(),
        ensures
            final(self).wf(),
            r is Ok,
            old(self).committed_index <= old(self).offset ==> r == Ok::<Option<(SnapshotMetadata, Vec<LogEntry>)>, RaftError>(None)
                && *final(self) == *old(self),
            old(self).committed_index > old(self).offset ==> ({
                let k = old(self).committed_index - old(self).offset;
                &&& r matches Ok(Some((m, es))) && m.last_index == old(self).committed_index
                    && m.last_term == old(self).logs@[k - 1].term && m.timestamp == timestamp
                    && es@ == old(self).logs@.subrange(0, k)
                &&& final(self).logs@ == old(self).logs@.subrange(k, old(self).logs@.len() as int)
                &&& final(self).offset == old(self).committed_index
                &&& final(self).committed_index == old(self).committed_index
                &&& final(self).current_snapshot == Some(r->Ok_0->Some_0.0)
            }),
    {
        if self.committed_index <= self.offset {
            return Ok(None);
        }
        let len = self.logs.len();
        assert(self.committed_index - self.offset <= len as int);
        let k = (self.committed_index - self.offset) as usize;
        let ghost old_offset = self.offset;
        let last_term = self.logs[k - 1].term;
        let metadata = SnapshotMetadata { last_index: self.committed_index, last_term, timestamp };
        let ghost before = self.logs@;
        let rest = self.logs.split_off(k);
        let prefix = self.logs.split_off(0);
        self.logs = rest;
        self.offset = self.committed_index;
        self.current_snapshot = Some(metadata);
        proof {
            assert forall|i: int| 0 <= i < self.logs@.len() implies (#[trigger] self.logs@[i]).index == self.offset + 1 + i by {
                assert(self.logs@[i] == before[k + i]);
                assert(before[k + i].index == old_offset + 1 + k + i);
            }
        }
        Ok(Some((metadata, prefix)))
    }

    /// Replaces the log by a snapshot's entries, which must be numbered
    /// densely up to its last index, and commits up to there. A snapshot
    /// older than the current one is refused.
    pub fn restore_snapshot(&mut self, metadata: SnapshotMetadata, entries: Vec<LogEntry>) -> (r: Result<(), RaftError>)
        requires
            old(self).wf(),
        ensures
            final(self).wf(),
            r is Ok <==> ({
                &&& entries@.len() <= metadata.last_index
                &&& dense(entries@, metadata.last_index - entries@.len() + 1)
                &&& old(self).current_snapshot matches Some(c) ==> metadata.last_index >= c.last_index
            }),
            r is Err ==> *final(self) == *old(self),
            r is Err ==> r matches Err(RaftError::State(_)),
            r is Ok ==> {
                &&& final(self).logs@ == entries@
                &&& final(self).last() == metadata.last_index
                &&& final(self).committed_index == metadata.last_index
                &&& final(self).current_snapshot == Some(metadata)
            },
    {
        match &self.current_snapshot {
            Some(c) => {
                if metadata.last_index < c.last_index {
                    return Err(RaftError::State(String::from_str("Cannot restore older snapshot")));
                }
            },
            None => {},
        }
        let n = entries.len();
        if n as u64 > metadata.last_index {
            return Err(RaftError::State(String::from_str("snapshot holds more entries than it covers")));
        }
        let base = metadata.last_index - n as u64;
        let mut i: usize = 0;
        while i < n
            invariant
                n == entries@.len(),
                i <= n,
                base + n == metadata.last_index,
                forall|j: int| 0 <= j < i ==> (#[trigger] entries@[j]).index == base + 1 + j,
                self.wf(),
                *self == *old(self),
            decreases n - i,
        {
            if entries[i].index != base + 1 + i as u64 {
                return Err(RaftError::State(String::from_str("snapshot entries are not contiguous")));
            }
            i = i + 1;
        }
        self.logs = entries;
        self.offset = base;
        self.committed_index = metadata.last_index;
        self.current_snapshot = Some(metadata);
        Ok(())
    }
}

/// A log for tests: entries kept as given, with no checks.
pub struct MockLogStore {
    pub logs: Vec<LogEntry>,
    pub committed_index: u64,
    pub snapshots: Vec<Vec<u8>>,
}

impl MockLogStore {
    pub fn new() -> (r: Self)
        ensures
            r.logs@.len() == 0,
            r.committed_index == 0,
            r.snapshots@.len() == 0,
    {
        MockLogStore { logs: Vec::new(), committed_index: 0, snapshots: Vec::new() }
    }
}

} // verus!
