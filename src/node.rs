use vstd::prelude::*;
use crate::consensus::ConsensusCore;
use crate::log_store::MemLogStore;
use crate::message::LogEntry;
use crate::raft_error::RaftError;
use crate::raft_state::{NodeRole, clock_millis};

verus! {

/// A client request to a replicated state machine.
pub struct Command {
    pub operation: String,
    pub key: String,
    pub value: Option<Vec<u8>>,
    pub timestamp: u64,
}

impl Command {
    /// A request stamped with the clock, in seconds.
    pub fn new(operation: String, key: String, value: Option<Vec<u8>>) -> (r: Self)
        ensures
            r.operation == operation,
            r.key == key,
            r.value == value,
    {
        let timestamp = clock_millis() / 1000;
        Command { operation, key, value, timestamp }
    }
}

/// What a state machine answers to a request.
pub struct Response {
    pub success: bool,
    pub data: Option<Vec<u8>>,
    pub error: Option<String>,
}

/// A leader appends an encoded request to its log, at the next index and
/// in its current term, and reports that index; any other node refuses.
pub fn propose(core: &mut ConsensusCore, data: Vec<u8>, timestamp: u64) -> (r: Result<u64, RaftError>)
    requires
        old(core).wf(),
        old(core).log.last() < u64::MAX,
    ensures
        final(core).wf(),
        old(core).state.role != NodeRole::Leader ==> r == Err::<u64, RaftError>(RaftError::NotLeader)
            && *final(core) == *old(core),
        old(core).state.role == NodeRole::Leader ==> {
            &&& r == Ok::<u64, RaftError>((old(core).log.last() + 1) as u64)
            &&& final(core).log.logs@.len() == old(core).log.logs@.len() + 1
            &&& final(core).log.logs@.drop_last() == old(core).log.logs@
            &&& final(core).log.logs@.last().term == old(core).state.current_term
            &&& final(core).log.logs@.last().index == old(core).log.last() + 1
            &&& final(core).log.logs@.last().data@ == data@
            &&& final(core).state == old(core).state
            &&& final(core).log.committed_index == old(core).log.committed_index
        },
{
    if core.state.role != NodeRole::Leader {
        return Err(RaftError::NotLeader);
    }
    let index = core.log.offset + core.log.logs.len() as u64 + 1;
    let entry = LogEntry::new(core.state.current_term, index, data, timestamp);
    let mut entries: Vec<LogEntry> = Vec::new();
    entries.push(entry);
    let ghost before = core.log.logs@;
    let _ = core.log.append(entries);
    proof {
        assert(before.subrange(0, index - core.log.offset - 1) =~= before);
        assert(core.log.logs@.drop_last() =~= before);
    }
    Ok(index)
}

/// How far a node has applied its log to its state machine, and when it
/// last took a snapshot.
pub struct ApplyProgress {
    pub applied_index: u64,
    pub last_snapshot_index: u64,
    pub snapshot_threshold: u64,
}

impl ApplyProgress {
    pub fn new(snapshot_threshold: u64) -> (r: Self)
        ensures
            r.applied_index == 0,
            r.last_snapshot_index == 0,
            r.snapshot_threshold == snapshot_threshold,
    {
        ApplyProgress { applied_index: 0, last_snapshot_index: 0, snapshot_threshold }
    }

    /// The committed entries not yet applied, in order, as far as the log
    /// holds them.
    pub fn pending(&self, log: &MemLogStore) -> (r: Vec<LogEntry>)
        requires
            log.wf(),
        ensures
            r@.len() == (if log.committed_index > self.applied_index && self.applied_index >= log.offset {
                log.committed_index - self.applied_index
            } else {
                0
            }),
            forall|i: int| 0 <= i < r@.len() ==> {
                &&& (#[trigger] r@[i]).index == self.applied_index + 1 + i
                &&& r@[i].term == log.logs@[self.applied_index + i - log.offset].term
                &&& r@[i].data@ == log.logs@[self.applied_index + i - log.offset].data@
                &&& r@[i].timestamp == log.logs@[self.applied_index + i - log.offset].timestamp
            },
    {
        if log.committed_index <= self.applied_index || self.applied_index < log.offset {
            return Vec::new();
        }
        match log.get_range(self.applied_index + 1, log.committed_index) {
            Ok(v) => v,
            Err(_) => Vec::new(),
        }
    }

    /// Records that entries up to `index` have been applied.
    pub fn mark_applied(&mut self, index: u64)
        requires
            index >= old(self).applied_index,
        ensures
            final(self).applied_index == index,
            final(self).last_snapshot_index == old(self).last_snapshot_index,
            final(self).snapshot_threshold == old(self).snapshot_threshold,
    {
        self.applied_index = index;
    }

    /// Whether enough has been applied since the last snapshot to take
    /// another.
    pub fn check_snapshot(&self) -> (r: bool)
        ensures
            r == (self.applied_index >= self.last_snapshot_index
                && self.applied_index - self.last_snapshot_index >= self.snapshot_threshold),
    {
        self.applied_index >= self.last_snapshot_index
            && self.applied_index - self.last_snapshot_index >= self.snapshot_threshold
    }

    /// Records a snapshot taken at the applied index.
    pub fn snapshot_taken(&mut self)
        ensures
            final(self).last_snapshot_index == old(self).applied_index,
            final(self).applied_index == old(self).applied_index,
            final(self).snapshot_threshold == old(self).snapshot_threshold,
    {
        self.last_snapshot_index = self.applied_index;
    }
}

} // verus!
