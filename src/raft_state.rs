use vstd::prelude::*;
use rand::Rng;
use crate::raft_error::RaftError;
use crate::storage::opt_text;

verus! {

#[derive(PartialEq, Eq, Structural, Clone, Copy, Debug)]
pub enum NodeRole {
    Follower,
    Candidate,
    Leader,
}

/// Election and heartbeat timing, in milliseconds.
#[derive(Clone, Copy, Debug)]
pub struct RaftConfig {
    pub election_timeout_min: u64,
    pub election_timeout_max: u64,
    pub heartbeat_interval: u64,
}

impl RaftConfig {
    pub open spec fn valid(&self) -> bool {
        self.election_timeout_min <= self.election_timeout_max
    }

    pub open spec fn is_default(&self) -> bool {
        self.election_timeout_min == 150 && self.election_timeout_max == 300 && self.heartbeat_interval == 50
    }

    /// Timeouts between 150 and 300 ms, heartbeats every 50 ms.
    pub fn standard() -> (r: Self)
        ensures
            r.is_default(),
    {
        RaftConfig { election_timeout_min: 150, election_timeout_max: 300, heartbeat_interval: 50 }
    }
}

impl Default for RaftConfig {
    fn default() -> (r: Self)
        ensures
            r.is_default(),
    {
        RaftConfig::standard()
    }
}

/// Relies on rand's `Rng::gen_range` over an inclusive range: a value
/// within it, which it panics on only where the range is empty.
#[verifier::external_body]
fn random_between(lo: u64, hi: u64) -> (r: u64)
    requires
        lo <= hi,
    ensures
        lo <= r <= hi,
{
    rand::thread_rng().gen_range(lo..=hi)
}

/// Relies on `SystemTime::now`: milliseconds since the Unix epoch, zero
/// where the clock stands before it.
#[verifier::external_body]
pub(crate) fn clock_millis() -> (r: u64)
{
    match std::time::SystemTime::now().duration_since(std::time::UNIX_EPOCH) {
        Ok(d) => d.as_millis() as u64,
        Err(_) => 0,
    }
}

/// Milliseconds from `since` to `now`; zero where the clock went back.
pub open spec fn elapsed(since: u64, now: u64) -> int {
    if now >= since { now - since } else { 0 }
}

fn elapsed_ms(since: u64, now: u64) -> (r: u64)
    ensures
        r == elapsed(since, now),
{
    if now >= since { now - since } else { 0 }
}

/// Whether a candidate's log, ending at `(index, term)`, is at least as
/// up to date as one ending at `(my_index, my_term)`.
pub open spec fn log_up_to_date(term: u64, index: u64, my_term: u64, my_index: u64) -> bool {
    term > my_term || (term == my_term && index >= my_index)
}

/// Whether a node in state `s` grants its vote to `candidate` asking in
/// `term` with a log ending at `(last_log_index, last_log_term)`.
pub open spec fn grants_vote(s: RaftState, candidate: Seq<char>, term: u64, last_log_index: u64, last_log_term: u64) -> bool {
    let voted = if term > s.current_term { None } else { opt_text(s.voted_for) };
    &&& term >= s.current_term
    &&& voted is None || voted == Some(candidate)
    &&& log_up_to_date(last_log_term, last_log_index, s.last_log_term, s.last_log_index)
}

/// One node's term, vote and role, with its election and heartbeat timers.
/// Times are milliseconds since the Unix epoch.
pub struct RaftState {
    pub node_id: String,
    pub current_term: u64,
    pub voted_for: Option<String>,
    pub role: NodeRole,
    pub votes_received: u64,
    pub election_timeout: u64,
    pub last_election_time: u64,
    pub last_heartbeat: u64,
    pub heartbeat_interval: u64,
    pub last_log_index: u64,
    pub last_log_term: u64,
    pub commit_index: u64,
    pub last_applied: u64,
    pub config: RaftConfig,
}

impl RaftState {
    pub open spec fn wf(&self) -> bool {
        self.config.valid()
    }

    /// The election timeout lies within the configured bounds.
    pub open spec fn timeout_in_bounds(&self) -> bool {
        self.config.election_timeout_min <= self.election_timeout <= self.config.election_timeout_max
    }

    /// A follower at term 0 that has voted for no one, with a fresh random
    /// election timeout; the standard timing where none is given.
    pub fn new(node_id: String, config: Option<RaftConfig>) -> (r: Self)
        requires
            config matches Some(c) ==> c.valid(),
        ensures
            r.wf(),
            r.timeout_in_bounds(),
            r.node_id@ == node_id@,
            r.current_term == 0,
            r.voted_for is None,
            r.role == NodeRole::Follower,
            r.votes_received == 0,
            r.last_log_index == 0,
            r.last_log_term == 0,
            r.commit_index == 0,
            r.last_applied == 0,
            r.last_election_time == r.last_heartbeat,
            match config {
                Some(c) => r.config == c,
                None => r.config.is_default(),
            },
            r.heartbeat_interval == r.config.heartbeat_interval,
    {
        let config = match config {
            Some(c) => c,
            None => RaftConfig::standard(),
        };
        let now = clock_millis();
        RaftState {
            node_id,
            current_term: 0,
            voted_for: None,
            role: NodeRole::Follower,
            votes_received: 0,
            election_timeout: random_between(config.election_timeout_min, config.election_timeout_max),
            last_election_time: now,
            last_heartbeat: now,
            heartbeat_interval: config.heartbeat_interval,
            last_log_index: 0,
            last_log_term: 0,
            commit_index: 0,
            last_applied: 0,
            config,
        }
    }

    /// Draws a fresh election timeout and restarts the election timer at
    /// `now`.
    pub fn reset_election_timeout_at(&mut self, now: u64)
        requires
            old(self).wf(),
        ensures
            final(self).wf(),
            final(self).timeout_in_bounds(),
            final(self).last_election_time == now,
            *final(self) == (RaftState {
                election_timeout: final(self).election_timeout,
                last_election_time: now,
                ..*old(self)
            }),
    {
        self.election_timeout = random_between(self.config.election_timeout_min, self.config.election_timeout_max);
        self.last_election_time = now;
    }

    /// Draws a fresh election timeout and restarts the election timer.
    pub fn reset_election_timeout(&mut self)
        requires
            old(self).wf(),
        ensures
            final(self).wf(),
            final(self).timeout_in_bounds(),
            *final(self) == (RaftState {
                election_timeout: final(self).election_timeout,
                last_election_time: final(self).last_election_time,
                ..*old(self)
            }),
    {
        let now = clock_millis();
        self.reset_election_timeout_at(now);
    }

    /// Moves to a term no lower than the current one. A higher term clears
    /// the vote and makes this node a follower; a lower one is refused.
    pub fn update_term(&mut self, term: u64) -> (r: Result<(), RaftError>)
        ensures
            term < old(self).current_term <==> r is Err,
            r matches Err(e) ==> e == (RaftError::InvalidTerm { current: old(self).current_term, received: term }),
            term < old(self).current_term || term == old(self).current_term ==> *final(self) == *old(self),
            term > old(self).current_term ==> *final(self) == (RaftState {
                current_term: term,
                voted_for: None,
                role: NodeRole::Follower,
                ..*old(self)
            }),
    {
        if term < self.current_term {
            return Err(RaftError::InvalidTerm { current: self.current_term, received: term });
        }
        if term > self.current_term {
            self.current_term = term;
            self.voted_for = None;
            self.role = NodeRole::Follower;
        }
        Ok(())
    }

    pub open spec fn should_begin_election_at_spec(&self, now: u64) -> bool {
        self.role != NodeRole::Leader && elapsed(self.last_election_time, now) >= self.election_timeout
    }

    /// Whether, at `now`, a node that is not leader has waited out its
    /// election timeout.
    pub fn should_begin_election_at(&self, now: u64) -> (r: bool)
        ensures
            r == self.should_begin_election_at_spec(now),
    {
        self.role != NodeRole::Leader && elapsed_ms(self.last_election_time, now) >= self.election_timeout
    }

    /// Whether a node that is not leader has waited out its election
    /// timeout by the clock.
    pub fn should_begin_election(&self) -> (r: bool)
        ensures
            r ==> self.role != NodeRole::Leader,
    {
        let now = clock_millis();
        self.should_begin_election_at(now)
    }

    /// Stands for election at `now`: a candidate in the next term, with its
    /// own vote.
    pub fn begin_election_at(&mut self, now: u64)
        requires
            old(self).wf(),
            old(self).current_term < u64::MAX,
        ensures
            final(self).wf(),
            final(self).timeout_in_bounds(),
            *final(self) == (RaftState {
                role: NodeRole::Candidate,
                current_term: (old(self).current_term + 1) as u64,
                voted_for: Some(old(self).node_id),
                votes_received: 1,
                election_timeout: final(self).election_timeout,
                last_election_time: now,
                ..*old(self)
            }),
    {
        self.role = NodeRole::Candidate;
        self.current_term = self.current_term + 1;
        self.voted_for = Some(self.node_id.clone());
        self.votes_received = 1;
        self.reset_election_timeout_at(now);
    }

    /// Stands for election: a candidate in the next term, with its own vote.
    pub fn begin_election(&mut self)
        requires
            old(self).wf(),
            old(self).current_term < u64::MAX,
        ensures
            final(self).wf(),
            final(self).timeout_in_bounds(),
            *final(self) == (RaftState {
                role: NodeRole::Candidate,
                current_term: (old(self).current_term + 1) as u64,
                voted_for: Some(old(self).node_id),
                votes_received: 1,
                election_timeout: final(self).election_timeout,
                last_election_time: final(self).last_election_time,
                ..*old(self)
            }),
    {
        let now = clock_millis();
        self.begin_election_at(now);
    }

    /// Answers a request for a vote at `now`. A stale term is refused. A
    /// newer term is adopted first. The vote goes to the candidate where
    /// this node has not voted for another in the term and the candidate's
    /// log is at least as up to date; granting it restarts the election
    /// timer.
    pub fn handle_vote_request_at(
        &mut self,
        candidate_id: &str,
        term: u64,
        last_log_index: u64,
        last_log_term: u64,
        now: u64,
    ) -> (r: Result<bool, RaftError>)
        requires
            old(self).wf(),
        ensures
            final(self).wf(),
            r is Ok,
            term < old(self).current_term ==> r == Ok::<bool, RaftError>(false) && *final(self) == *old(self),
            term >= old(self).current_term ==> ({
                let voted = if term > old(self).current_term { None } else { opt_text(old(self).voted_for) };
                let grant = (voted is None || voted == Some(candidate_id@))
                    && log_up_to_date(last_log_term, last_log_index, old(self).last_log_term, old(self).last_log_index);
                &&& final(self).current_term == term
                &&& r == Ok::<bool, RaftError>(grant)
                &&& grant == grants_vote(*old(self), candidate_id@, term, last_log_index, last_log_term)
                &&& final(self).role == (if term > old(self).current_term { NodeRole::Follower } else { old(self).role })
                &&& opt_text(final(self).voted_for) == (if grant { Some(candidate_id@) } else { voted })
                &&& grant ==> final(self).last_election_time == now && final(self).timeout_in_bounds()
                &&& !grant ==> final(self).last_election_time == old(self).last_election_time
                    && final(self).election_timeout == old(self).election_timeout
                &&& final(self).node_id == old(self).node_id
                &&& final(self).votes_received == old(self).votes_received
                &&& final(self).last_log_index == old(self).last_log_index
                &&& final(self).last_log_term == old(self).last_log_term
                &&& final(self).commit_index == old(self).commit_index
            }),
    {
        if term < self.current_term {
            return Ok(false);
        }
        let _ = self.update_term(term);
        let cand = String::from_str(candidate_id);
        let can_vote = match &self.voted_for {
            None => true,
            Some(v) => *v == cand,
        };
        let log_is_current = last_log_term > self.last_log_term
            || (last_log_term == self.last_log_term && last_log_index >= self.last_log_index);
        if can_vote && log_is_current {
            self.voted_for = Some(cand);
            self.reset_election_timeout_at(now);
            Ok(true)
        } else {
            Ok(false)
        }
    }

    /// Answers a request for a vote by the clock, as
    /// `handle_vote_request_at` does.
    pub fn handle_vote_request(
        &mut self,
        candidate_id: &str,
        term: u64,
        last_log_index: u64,
        last_log_term: u64,
    ) -> (r: Result<bool, RaftError>)
        requires
            old(self).wf(),
        ensures
            final(self).wf(),
            r == Ok::<bool, RaftError>(grants_vote(*old(self), candidate_id@, term, last_log_index, last_log_term)),
            r == Ok::<bool, RaftError>(true) ==> opt_text(final(self).voted_for) == Some(candidate_id@)
                && final(self).current_term == term,
            r == Ok::<bool, RaftError>(false) ==> opt_text(final(self).voted_for)
                == (if term > old(self).current_term { None } else { opt_text(old(self).voted_for) }),
            term < old(self).current_term ==> *final(self) == *old(self),
            final(self).current_term == (if term > old(self).current_term { term } else { old(self).current_term }),
            final(self).role == (if term > old(self).current_term { NodeRole::Follower } else { old(self).role }),
            final(self).node_id == old(self).node_id,
            final(self).votes_received == old(self).votes_received,
            final(self).last_log_index == old(self).last_log_index,
            final(self).last_log_term == old(self).last_log_term,
            final(self).commit_index == old(self).commit_index,
    {
        let now = clock_millis();
        self.handle_vote_request_at(candidate_id, term, last_log_index, last_log_term, now)
    }

    /// Counts a vote where this node is a candidate and it was granted.
    pub fn receive_vote(&mut self, granted: bool)
        requires
            old(self).votes_received < u64::MAX,
        ensures
            *final(self) == (RaftState {
                votes_received: if granted && old(self).role == NodeRole::Candidate {
                    (old(self).votes_received + 1) as u64
                } else {
                    old(self).votes_received
                },
                ..*old(self)
            }),
    {
        if granted && self.role == NodeRole::Candidate {
            self.votes_received = self.votes_received + 1;
        }
    }

    /// Whether this candidate holds votes from a strict majority of
    /// `cluster_size` nodes.
    pub fn check_election_won(&self, cluster_size: usize) -> (r: bool)
        ensures
            r == (self.role == NodeRole::Candidate && self.votes_received > cluster_size / 2),
    {
        self.role == NodeRole::Candidate && self.votes_received > (cluster_size / 2) as u64
    }

    /// A candidate becomes leader at `now`, restarting the heartbeat timer;
    /// any other role is kept.
    pub fn become_leader_at(&mut self, now: u64)
        ensures
            old(self).role == NodeRole::Candidate ==> *final(self) == (RaftState {
                role: NodeRole::Leader,
                last_heartbeat: now,
                ..*old(self)
            }),
            old(self).role != NodeRole::Candidate ==> *final(self) == *old(self),
    {
        if self.role == NodeRole::Candidate {
            self.role = NodeRole::Leader;
            self.last_heartbeat = now;
        }
    }

    /// A candidate becomes leader, restarting the heartbeat timer.
    pub fn become_leader(&mut self)
        ensures
            old(self).role == NodeRole::Candidate ==> *final(self) == (RaftState {
                role: NodeRole::Leader,
                last_heartbeat: final(self).last_heartbeat,
                ..*old(self)
            }),
            old(self).role != NodeRole::Candidate ==> *final(self) == *old(self),
    {
        let now = clock_millis();
        self.become_leader_at(now);
    }

    /// Whether, at `now`, a leader's heartbeat interval has passed.
    pub fn should_send_heartbeat_at(&self, now: u64) -> (r: bool)
        ensures
            r == (self.role == NodeRole::Leader && elapsed(self.last_heartbeat, now) >= self.heartbeat_interval),
    {
        self.role == NodeRole::Leader && elapsed_ms(self.last_heartbeat, now) >= self.heartbeat_interval
    }

    /// Whether a leader's heartbeat interval has passed by the clock.
    pub fn should_send_heartbeat(&self) -> (r: bool)
        ensures
            r ==> self.role == NodeRole::Leader,
    {
        let now = clock_millis();
        self.should_send_heartbeat_at(now)
    }

    /// Restarts the heartbeat timer at `now`.
    pub fn update_heartbeat_at(&mut self, now: u64)
        ensures
            *final(self) == (RaftState { last_heartbeat: now, ..*old(self) }),
    {
        self.last_heartbeat = now;
    }

    /// Restarts the heartbeat timer by the clock.
    pub fn update_heartbeat(&mut self)
        ensures
            *final(self) == (RaftState { last_heartbeat: final(self).last_heartbeat, ..*old(self) }),
    {
        let now = clock_millis();
        self.update_heartbeat_at(now);
    }
}

} // verus!
