use vstd::prelude::*;

verus! {

/// One replicated log entry. Indices start at 1.
#[derive(Debug, PartialEq, Eq, Clone)]
pub struct LogEntry {
    pub term: u64,
    pub index: u64,
    pub data: Vec<u8>,
    pub timestamp: u64,
}

impl LogEntry {
    /// An entry stamped with the given time, in seconds.
    pub fn new(term: u64, index: u64, data: Vec<u8>, timestamp: u64) -> (r: Self)
        ensures
            r.term == term,
            r.index == index,
            r.data@ == data@,
            r.timestamp == timestamp,
    {
        LogEntry { term, index, data, timestamp }
    }

    /// A copy of this entry.
    pub fn duplicate(&self) -> (r: Self)
        ensures
            r.term == self.term,
            r.index == self.index,
            r.data@ == self.data@,
            r.timestamp == self.timestamp,
    {
        LogEntry { term: self.term, index: self.index, data: self.data.clone(), timestamp: self.timestamp }
    }
}

/// The messages that nodes exchange.
#[derive(Debug, PartialEq, Eq, Clone)]
pub enum RaftMessage {
    RequestVote { term: u64, candidate_id: String, last_log_index: u64, last_log_term: u64 },
    RequestVoteResponse { term: u64, vote_granted: bool },
    AppendEntries {
        term: u64,
        leader_id: String,
        prev_log_index: u64,
        prev_log_term: u64,
        entries: Vec<LogEntry>,
        leader_commit: u64,
    },
    AppendEntriesResponse { term: u64, success: bool, match_index: u64 },
    Heartbeat { term: u64, leader_id: String },
}

} // verus!
