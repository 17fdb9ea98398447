use vstd::prelude::*;

verus! {

/// What can go wrong in the replication core.
#[derive(Debug, PartialEq, Eq)]
pub enum RaftError {
    Io(String),
    Serialization(String),
    InvalidTerm { current: u64, received: u64 },
    NodeNotFound(String),
    LogNotFound(u64),
    LogCompactionInProgress,
    Transport(String),
    State(String),
    NotLeader,
    ReplicationTimeout,
}

} // verus!
