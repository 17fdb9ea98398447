use vstd::prelude::*;
use crate::table::Table;
use crate::message::{LogEntry, RaftMessage};
use crate::log_store::MemLogStore;
use crate::raft_state::{RaftState, NodeRole, grants_vote};
use crate::model::Text;
use crate::log_store::dense;
use crate::storage::opt_text;

verus! {

/// How many of `peers` have replicated up to `n`, by `matched`.
pub open spec fn count_matched(peers: Seq<Text>, matched: Map<Text, u64>, n: int) -> nat
    decreases peers.len(),
{
    if peers.len() == 0 {
        0
    } else {
        count_matched(peers.drop_last(), matched, n) + if matched.contains_key(peers.last())
            && matched[peers.last()] >= n { 1nat } else { 0nat }
    }
}

/// Whether `entries` are numbered densely from `first` and end within the
/// index range.
fn runs_from(entries: &Vec<LogEntry>, first: u64) -> (r: bool)
    ensures
        r == (first >= 1 && dense(entries@, first as int) && first + entries@.len() <= u64::MAX + 1),
{
    let n = entries.len();
    if first == 0 || (n as u64) > u64::MAX - (first - 1) {
        return false;
    }
    let mut i: usize = 0;
    while i < n
        invariant
            n == entries@.len(),
            i <= n,
            first >= 1,
            first - 1 + n <= u64::MAX,
            forall|j: int| 0 <= j < i ==> (#[trigger] entries@[j]).index == first + j,
        decreases n - i,
    {
        if entries[i].index != first + i as u64 {
            return false;
        }
        i = i + 1;
    }
    true
}

/// The replication decisions of one node: its term and vote, its log, and,
/// while it leads, how far each peer has replicated.
pub struct ConsensusCore {
    pub state: RaftState,
    pub log: MemLogStore,
    pub peers: Vec<String>,
    pub next_index: Table<u64>,
    pub match_index: Table<u64>,
}

impl ConsensusCore {
    pub open spec fn peer_ids(&self) -> Seq<Text> {
        self.peers@.map_values(|p: String| p@)
    }

    pub open spec fn wf(&self) -> bool {
        &&& self.state.wf()
        &&& self.log.wf()
        &&& self.next_index.wf()
        &&& self.match_index.wf()
    }

    /// Whether index `n` may be committed by a leader: it lies beyond the
    /// commit pointer, within the log, holds an entry of the current term,
    /// and a strict majority of the cluster (the leader included) has it.
    pub open spec fn committable(&self, n: int) -> bool {
        &&& self.log.committed_index < n <= self.log.last()
        &&& self.log.entry(n) matches Some(e) && e.term == self.state.current_term
        &&& count_matched(self.peer_ids(), self.match_index@, n) + 1 > (self.peers@.len() + 1) / 2
    }

    /// A node with an empty log that knows the given peers.
    pub fn new(state: RaftState, peers: Vec<String>) -> (r: Self)
        requires
            state.wf(),
        ensures
            r.wf(),
            r.state == state,
            r.peers@ == peers@,
            r.log.logs@.len() == 0 && r.log.offset == 0 && r.log.committed_index == 0,
            r.next_index@ == Map::<Text, u64>::empty(),
            r.match_index@ == Map::<Text, u64>::empty(),
    {
        ConsensusCore { state, log: MemLogStore::new(), peers, next_index: Table::new(), match_index: Table::new() }
    }

    /// Whether the log agrees with a leader's at `prev_index`: the start of
    /// the log, or an entry there of term `prev_term`.
    pub open spec fn log_matches(&self, prev_index: u64, prev_term: u64) -> bool {
        prev_index == 0 || self.log.term_of(prev_index as int) == Some(prev_term)
    }

    /// Whether a matching append of `entries` after `prev_index` can be
    /// carried out: the log has not compacted past it, and the entries
    /// continue right after it.
    pub open spec fn append_fits(&self, prev_index: u64, entries: Seq<LogEntry>) -> bool {
        &&& prev_index >= self.log.offset
        &&& entries.len() > 0 ==> dense(entries, prev_index + 1) && prev_index + 1 + entries.len() <= u64::MAX + 1
    }

    /// Whether the entry sent at position `i` after `prev` agrees with the
    /// log: the log reaches its index and holds an entry of its term there.
    pub open spec fn agrees(&self, prev: int, entries: Seq<LogEntry>, i: int) -> bool {
        prev + 1 + i <= self.log.last() && self.log.term_of(prev + 1 + i) == Some(entries[i].term)
    }

    /// What a follower's state and answer become on an append.
    pub open spec fn append_entries_post(
        old: ConsensusCore,
        new: ConsensusCore,
        r: RaftMessage,
        term: u64,
        prev: u64,
        prev_term: u64,
        entries: Seq<LogEntry>,
        leader_commit: u64,
        now: u64,
    ) -> bool {
        let n = entries.len();
        let off = old.log.offset;
        &&& term < old.state.current_term ==> new == old
            && r == (RaftMessage::AppendEntriesResponse { term: old.state.current_term, success: false, match_index: 0 })
        &&& term >= old.state.current_term ==> {
            let ok = old.log_matches(prev, prev_term) && old.append_fits(prev, entries);
            &&& new.state.current_term == term
            &&& new.state.role == NodeRole::Follower
            &&& new.state.last_election_time == now
            &&& term > old.state.current_term ==> new.state.voted_for is None
            &&& term == old.state.current_term ==> new.state.voted_for == old.state.voted_for
            &&& new.peers == old.peers
            &&& new.next_index == old.next_index
            &&& new.match_index == old.match_index
            &&& new.log.offset == old.log.offset
            &&& new.log.current_snapshot == old.log.current_snapshot
            &&& new.log.committed_index >= old.log.committed_index
            &&& new.log.logs@.len() >= old.log.committed_index - off
            &&& forall|i: int| 0 <= i < old.log.committed_index - off ==> #[trigger] new.log.logs@[i] == old.log.logs@[i]
            &&& r matches RaftMessage::AppendEntriesResponse { term: t, success, match_index }
            &&& t == term
            &&& !success ==> new.log == old.log && match_index == 0
            &&& !ok ==> !success
            &&& ok && !success ==> exists|k: int| #[trigger] Self::committed_conflict(old, prev, entries, k)
            &&& success ==> ok && match_index == prev + n
                && exists|k: int| #[trigger] Self::append_result(old, new, prev, entries, leader_commit, k)
        }
    }

    /// The first `k` entries sent agree with the log, and the next one is
    /// missing or differs (or all agree, where `k` is their number).
    pub open spec fn first_disagreement(old: ConsensusCore, prev: u64, entries: Seq<LogEntry>, k: int) -> bool {
        &&& 0 <= k <= entries.len()
        &&& forall|j: int| 0 <= j < k ==> #[trigger] old.agrees(prev as int, entries, j)
        &&& k < entries.len() ==> !old.agrees(prev as int, entries, k)
    }

    /// The first disagreement lies at a committed index: the append is refused.
    pub open spec fn committed_conflict(old: ConsensusCore, prev: u64, entries: Seq<LogEntry>, k: int) -> bool {
        &&& Self::first_disagreement(old, prev, entries, k)
        &&& k < entries.len()
        &&& prev + 1 + k <= old.log.committed_index
    }

    /// The log and commit pointer after an accepted append whose first
    /// disagreement is at position `k`.
    pub open spec fn append_result(old: ConsensusCore, new: ConsensusCore, prev: u64, entries: Seq<LogEntry>, leader_commit: u64, k: int) -> bool {
        let n = entries.len();
        let off = old.log.offset;
        let upto = if leader_commit < prev + n { leader_commit as int } else { prev + n };
        &&& Self::first_disagreement(old, prev, entries, k)
        &&& k < n ==> prev + 1 + k > old.log.committed_index
        &&& new.log.logs@ == (if k < n {
            old.log.logs@.subrange(0, prev - off + k) + entries.subrange(k, n as int)
        } else {
            old.log.logs@
        })
        &&& new.log.committed_index == (if leader_commit > old.log.committed_index && upto > old.log.committed_index {
            upto
        } else {
            old.log.committed_index as int
        })
    }

    /// A follower's answer to a leader's append. A stale term is refused with
    /// the current one. Otherwise the term is adopted, this node follows and
    /// restarts its election timer at `now`. Where the log agrees at
    /// `prev_log_index`, entries that agree are kept, the log is cut at the
    /// first that conflicts and the rest appended; a conflict at a committed
    /// index is refused instead, so committed entries are never cut. The
    /// commit pointer follows the leader's as far as the entries reach and
    /// never goes back; success reports the index of the last entry sent.
    pub fn handle_append_entries(
        &mut self,
        term: u64,
        leader_id: &str,
        prev_log_index: u64,
        prev_log_term: u64,
        entries: Vec<LogEntry>,
        leader_commit: u64,
        now: u64,
    ) -> (r: RaftMessage)
        requires
            old(self).wf(),
        ensures
            final(self).wf(),
            Self::append_entries_post(*old(self), *final(self), r, term, prev_log_index, prev_log_term,
                entries@, leader_commit, now),
    {
        let ghost s0 = *self;
        let ghost es = entries@;
        if term < self.state.current_term {
            return RaftMessage::AppendEntriesResponse { term: self.state.current_term, success: false, match_index: 0 };
        }
        let _ = self.state.update_term(term);
        self.state.role = NodeRole::Follower;
        self.state.reset_election_timeout_at(now);
        let log_ok = prev_log_index == 0 || self.log.term_at(prev_log_index) == Some(prev_log_term);
        let fits = prev_log_index >= self.log.offset && (entries.len() == 0 || (prev_log_index < u64::MAX && runs_from(&entries, prev_log_index + 1)));
        if !(log_ok && fits) {
            return RaftMessage::AppendEntriesResponse { term, success: false, match_index: 0 };
        }
        proof {
            assert(s0.log == self.log);
            if prev_log_index != 0 {
                assert(self.log.term_of(prev_log_index as int) is Some);
            }
            assert(prev_log_index <= self.log.last());
        }
        let n = entries.len();
        let last = self.log.offset + self.log.logs.len() as u64;
        let mut k: usize = 0;
        let mut go = true;
        while k < n && go
            invariant
                s0 == *old(self),
                self.log == s0.log,
                self.log.wf(),
                last == self.log.last(),
                n == es.len(),
                entries@ == es,
                k <= n,
                prev_log_index >= self.log.offset,
                n > 0 ==> dense(es, prev_log_index + 1) && prev_log_index + 1 + n <= u64::MAX + 1,
                forall|j: int| 0 <= j < k ==> #[trigger] s0.agrees(prev_log_index as int, es, j),
                !go ==> k < n && !s0.agrees(prev_log_index as int, es, k as int),
            decreases n - k + (if go { 1int } else { 0int }),
        {
            let idx = prev_log_index + 1 + k as u64;
            if idx > last {
                go = false;
            } else if self.log.term_at(idx) != Some(entries[k].term) {
                go = false;
            } else {
                k = k + 1;
            }
        }
        let ghost kk = k as int;
        proof {
            assert(kk < n ==> !s0.agrees(prev_log_index as int, es, kk));
        }
        let ghost l0 = self.log;
        if k < n {
            let idx = prev_log_index + 1 + k as u64;
            if idx <= last {
                if idx <= self.log.committed_index {
                    proof {
                        assert(self.log == s0.log);
                        assert(Self::committed_conflict(s0, prev_log_index, es, kk));
                    }
                    return RaftMessage::AppendEntriesResponse { term, success: false, match_index: 0 };
                }
                let _ = self.log.delete_from(idx);
                proof {
                    assert(self.log.logs@ == l0.logs@.subrange(0, prev_log_index - l0.offset + kk));
                }
            } else {
                proof {
                    if kk > 0 {
                        assert(s0.agrees(prev_log_index as int, es, kk - 1));
                    }
                    assert(prev_log_index + kk == last);
                    assert(l0.logs@.subrange(0, prev_log_index - l0.offset + kk) =~= l0.logs@);
                }
            }
            proof {
                assert(self.log.logs@ == l0.logs@.subrange(0, prev_log_index - l0.offset + kk));
                assert(self.log.committed_index == l0.committed_index);
            }
            let mut all = entries;
            let tail = all.split_off(k);
            proof {
                assert(tail@ == es.subrange(kk, n as int));
                assert(dense(tail@, idx as int));
                assert(tail@[0].index == idx);
            }
            let ghost lb = self.log.logs@;
            let _ = self.log.append(tail);
            proof {
                assert(lb.subrange(0, idx - self.log.offset - 1) =~= lb);
                assert(self.log.logs@ == lb + es.subrange(kk, n as int));
            }
        }
        proof {
            assert(self.log.committed_index == l0.committed_index);
            assert(self.log.offset == l0.offset);
            if kk == n {
                assert(self.log == l0);
            }
        }
        let c0 = self.log.committed_index;
        let upto = prev_log_index + n as u64;
        proof {
            let off = s0.log.offset;
            if kk == n as int && n > 0 {
                assert(s0.agrees(prev_log_index as int, es, kk - 1));
            }
            assert(upto <= self.log.last());
            assert(self.log.logs@ == (if kk < n { s0.log.logs@.subrange(0, prev_log_index - off + kk) + es.subrange(kk, n as int) } else { s0.log.logs@ }));
            assert(kk < n ==> prev_log_index + 1 + kk > s0.log.committed_index);
            assert forall|i: int| 0 <= i < s0.log.committed_index - off implies #[trigger] self.log.logs@[i] == s0.log.logs@[i] by {
            }
        }
        if leader_commit > c0 {
            let c = if leader_commit < upto { leader_commit } else { upto };
            if c > c0 {
                let _ = self.log.commit(c);
            }
        }
        proof {
            let off = s0.log.offset;
            let nn = es.len();
            let m = if leader_commit < prev_log_index + nn { leader_commit as int } else { prev_log_index + nn };
            assert(0 <= kk <= nn);
            assert(forall|j: int| 0 <= j < kk ==> #[trigger] s0.agrees(prev_log_index as int, es, j));
            assert(kk < nn ==> !s0.agrees(prev_log_index as int, es, kk) && prev_log_index + 1 + kk > s0.log.committed_index);
            assert(self.log.logs@ == (if kk < nn {
                    s0.log.logs@.subrange(0, prev_log_index - off + kk) + es.subrange(kk, nn as int)
                } else {
                    s0.log.logs@
                }));
            assert(self.log.committed_index == (if leader_commit > s0.log.committed_index && m > s0.log.committed_index {
                    m
                } else {
                    s0.log.committed_index as int
                }));
            assert(s0.log_matches(prev_log_index, prev_log_term));
            assert(s0.append_fits(prev_log_index, es));
            assert(self.state.current_term == term);
            assert(self.log.offset == s0.log.offset);
            assert(self.peers == s0.peers && self.next_index == s0.next_index && self.match_index == s0.match_index);
            assert(self.state.role == NodeRole::Follower);
            assert(self.state.last_election_time == now);
            assert(term > s0.state.current_term ==> self.state.voted_for is None);
            assert(term == s0.state.current_term ==> self.state.voted_for == s0.state.voted_for);
            assert(self.log.current_snapshot == s0.log.current_snapshot);
            assert(self.log.committed_index >= s0.log.committed_index);
            assert(self.log.logs@.len() >= s0.log.committed_index - off);
            assert(Self::append_result(s0, *self, prev_log_index, es, leader_commit, kk));
        }
        RaftMessage::AppendEntriesResponse { term, success: true, match_index: upto }
    }

    /// What a leader's bookkeeping becomes on a peer's answer to an append.
    pub open spec fn append_response_post(
        old: ConsensusCore,
        new: ConsensusCore,
        peer: Text,
        term: u64,
        success: bool,
        match_index: u64,
    ) -> bool {
        &&& new.peers == old.peers
        &&& term > old.state.current_term ==> {
            &&& new.state.current_term == term
            &&& new.state.role == NodeRole::Follower
            &&& new.state.voted_for is None
            &&& new.log == old.log
            &&& new.next_index == old.next_index
            &&& new.match_index == old.match_index
        }
        &&& term < old.state.current_term || (term == old.state.current_term && old.state.role != NodeRole::Leader)
            ==> new == old
        &&& term == old.state.current_term && old.state.role == NodeRole::Leader ==> {
            &&& new.state == old.state
            &&& success && match_index < u64::MAX ==> {
                &&& new.match_index@ == old.match_index@.insert(peer, match_index)
                &&& new.next_index@ == old.next_index@.insert(peer, (match_index + 1) as u64)
                &&& new.log.logs == old.log.logs
                &&& new.log.offset == old.log.offset
                &&& new.log.committed_index >= old.log.committed_index
            }
            &&& success && match_index == u64::MAX ==> new == old
            &&& !success ==> {
                let cur = if old.next_index@.contains_key(peer) { old.next_index@[peer] as int } else { 1 };
                &&& new.next_index@ == old.next_index@.insert(peer, (if cur > 1 { cur - 1 } else { 1 }) as u64)
                &&& new.match_index == old.match_index
                &&& new.log == old.log
            }
        }
    }

    /// A leader's bookkeeping on a peer's answer to an append. A higher term
    /// demotes this node. An answer from another term, or reaching a node
    /// that does not lead, is dropped. A success records how far the peer has
    /// replicated and advances the commit pointer; a failure steps the peer's
    /// next index back, not below one.
    pub fn handle_append_entries_response(&mut self, peer: &String, term: u64, success: bool, match_index: u64)
        requires
            old(self).wf(),
            old(self).peers@.len() < u64::MAX,
        ensures
            final(self).wf(),
            Self::append_response_post(*old(self), *final(self), peer@, term, success, match_index),
    {
        if term > self.state.current_term {
            let _ = self.state.update_term(term);
            return;
        }
        if self.state.role != NodeRole::Leader || term != self.state.current_term {
            return;
        }
        if success {
            if match_index == u64::MAX {
                return;
            }
            self.match_index.insert(peer.clone(), match_index);
            self.next_index.insert(peer.clone(), match_index + 1);
            self.update_commit_index();
        } else {
            let cur: u64 = match self.next_index.get(peer) {
                Some(v) => *v,
                None => 1,
            };
            let next = if cur > 1 { cur - 1 } else { 1 };
            self.next_index.insert(peer.clone(), next);
        }
    }

    /// The state a vote request is judged against: this node's, with the
    /// log's end in place of the cached one.
    pub open spec fn voter(&self) -> RaftState {
        RaftState { last_log_index: self.log.last() as u64, last_log_term: self.log.last_term_spec(), ..self.state }
    }

    /// What a node's state and answer become on a vote request.
    pub open spec fn vote_request_post(
        old: ConsensusCore,
        new: ConsensusCore,
        r: RaftMessage,
        candidate: Text,
        term: u64,
        last_log_index: u64,
        last_log_term: u64,
    ) -> bool {
        let granted = grants_vote(old.voter(), candidate, term, last_log_index, last_log_term);
        &&& new.log == old.log
        &&& new.peers == old.peers
        &&& new.next_index == old.next_index
        &&& new.match_index == old.match_index
        &&& r == (RaftMessage::RequestVoteResponse { term: new.state.current_term, vote_granted: granted })
        &&& new.state.current_term == (if term > old.state.current_term { term } else { old.state.current_term })
        &&& new.state.last_log_index == old.log.last()
        &&& granted ==> opt_text(new.state.voted_for) == Some(candidate)
        &&& !granted && term <= old.state.current_term ==> opt_text(new.state.voted_for) == opt_text(old.state.voted_for)
        &&& term > old.state.current_term ==> new.state.role == NodeRole::Follower
        &&& term <= old.state.current_term ==> new.state.role == old.state.role
    }

    /// Answers a request for a vote, judged against this node's log, with
    /// the term that results.
    pub fn handle_vote_request(
        &mut self,
        candidate_id: &str,
        term: u64,
        last_log_index: u64,
        last_log_term: u64,
        now: u64,
    ) -> (r: RaftMessage)
        requires
            old(self).wf(),
        ensures
            final(self).wf(),
            Self::vote_request_post(*old(self), *final(self), r, candidate_id@, term, last_log_index, last_log_term),
    {
        let ghost s0 = *self;
        self.state.last_log_index = self.log.offset + self.log.logs.len() as u64;
        self.state.last_log_term = match self.log.last_term() {
            Ok(t) => t,
            Err(_) => 0,
        };
        proof {
            assert(self.state == s0.voter());
        }
        let granted = match self.state.handle_vote_request_at(candidate_id, term, last_log_index, last_log_term, now) {
            Ok(g) => g,
            Err(_) => false,
        };
        RaftMessage::RequestVoteResponse { term: self.state.current_term, vote_granted: granted }
    }

    /// Whether an answer to this node's vote request wins it the election.
    pub open spec fn wins_with(&self, term: u64, vote_granted: bool) -> bool {
        &&& term == self.state.current_term
        &&& self.state.role == NodeRole::Candidate
        &&& self.state.votes_received < u64::MAX
        &&& (if vote_granted { self.state.votes_received + 1 } else { self.state.votes_received as int })
            > (self.peers@.len() + 1) / 2
    }

    /// What a node's state becomes on an answer to its vote request.
    pub open spec fn vote_response_post(old: ConsensusCore, new: ConsensusCore, won: bool, term: u64, vote_granted: bool, now: u64) -> bool {
        &&& new.log == old.log
        &&& new.peers == old.peers
        &&& won == old.wins_with(term, vote_granted)
        &&& term > old.state.current_term ==> new.state.current_term == term && new.state.role == NodeRole::Follower
        &&& won ==> {
            &&& new.state.role == NodeRole::Leader
            &&& new.state.current_term == old.state.current_term
            &&& new.state.last_heartbeat == now
            &&& forall|i: int| 0 <= i < old.peers@.len() ==> {
                &&& new.next_index@.contains_key(#[trigger] old.peers@[i]@)
                &&& new.next_index@[old.peers@[i]@] == old.log.last() + 1
                &&& new.match_index@.contains_key(old.peers@[i]@)
                &&& new.match_index@[old.peers@[i]@] == 0
            }
        }
        &&& !won && term <= old.state.current_term ==> new.state.role == old.state.role
            && new.state.current_term == old.state.current_term
    }

    /// Tallies an answer to this node's request for votes. A higher term
    /// demotes it; a granted vote in the current term is counted while it is
    /// a candidate, and a strict majority makes it leader, with replication
    /// set up for every peer. Reports whether it became leader.
    pub fn handle_vote_response(&mut self, term: u64, vote_granted: bool, now: u64) -> (r: bool)
        requires
            old(self).wf(),
            old(self).peers@.len() < u64::MAX,
            old(self).log.last() < u64::MAX,
        ensures
            final(self).wf(),
            Self::vote_response_post(*old(self), *final(self), r, term, vote_granted, now),
    {
        if term > self.state.current_term {
            let _ = self.state.update_term(term);
            return false;
        }
        if term != self.state.current_term || self.state.role != NodeRole::Candidate || self.state.votes_received == u64::MAX {
            return false;
        }
        self.state.receive_vote(vote_granted);
        let size = self.peers.len() as u64 + 1;
        if self.state.votes_received > size / 2 {
            self.state.become_leader_at(now);
            self.initialize_leader_state();
            true
        } else {
            false
        }
    }

    /// On an election timeout at `now`, stands for election, voting for
    /// itself, and asks every peer for its vote with where its log ends;
    /// otherwise asks nothing.
    pub fn handle_election_timeout(&mut self, now: u64) -> (r: Vec<(String, RaftMessage)>)
        requires
            old(self).wf(),
            old(self).state.current_term < u64::MAX,
        ensures
            final(self).wf(),
            final(self).log == old(self).log,
            !old(self).state.should_begin_election_at_spec(now) ==> *final(self) == *old(self) && r@.len() == 0,
            old(self).state.should_begin_election_at_spec(now) ==> {
                &&& final(self).state.role == NodeRole::Candidate
                &&& final(self).state.current_term == old(self).state.current_term + 1
                &&& opt_text(final(self).state.voted_for) == Some(old(self).state.node_id@)
                &&& final(self).state.votes_received == 1
                &&& final(self).state.last_election_time == now
                &&& r@.len() == old(self).peers@.len()
                &&& forall|i: int| 0 <= i < r@.len() ==> ((#[trigger] r@[i]).0@ == old(self).peers@[i]@
                    && (r@[i].1 matches RaftMessage::RequestVote { term: t, candidate_id, last_log_index, last_log_term }
                    && t == final(self).state.current_term && candidate_id@ == old(self).state.node_id@
                    && last_log_index == old(self).log.last() && last_log_term == old(self).log.last_term_spec()))
            },
    {
        let mut out: Vec<(String, RaftMessage)> = Vec::new();
        if !self.state.should_begin_election_at(now) {
            return out;
        }
        self.state.begin_election_at(now);
        let last_index = self.log.offset + self.log.logs.len() as u64;
        let last_term = match self.log.last_term() {
            Ok(t) => t,
            Err(_) => 0,
        };
        self.state.last_log_index = last_index;
        self.state.last_log_term = last_term;
        let ghost voted = self.state.voted_for;
        let mut i: usize = 0;
        while i < self.peers.len()
            invariant
                self.wf(),
                self.log == old(self).log,
                self.peers == old(self).peers,
                self.state.role == NodeRole::Candidate,
                self.state.current_term == old(self).state.current_term + 1,
                self.state.votes_received == 1,
                self.state.voted_for == voted,
                opt_text(voted) == Some(old(self).state.node_id@),
                self.state.last_election_time == now,
                self.state.node_id == old(self).state.node_id,
                last_index == old(self).log.last(),
                last_term == old(self).log.last_term_spec(),
                i <= self.peers@.len(),
                out@.len() == i,
                forall|j: int| 0 <= j < i ==> ((#[trigger] out@[j]).0@ == self.peers@[j]@
                    && (out@[j].1 matches RaftMessage::RequestVote { term: t, candidate_id, last_log_index, last_log_term }
                    && t == self.state.current_term && candidate_id@ == self.state.node_id@
                    && last_log_index == last_index && last_log_term == last_term)),
            decreases self.peers@.len() - i,
        {
            let msg = RaftMessage::RequestVote {
                term: self.state.current_term,
                candidate_id: self.state.node_id.clone(),
                last_log_index: last_index,
                last_log_term: last_term,
            };
            out.push((self.peers[i].clone(), msg));
            i = i + 1;
        }
        out
    }

    /// The index a leader next sends to peer `p`: the start of the log for a
    /// peer with none recorded.
    pub open spec fn next_for(&self, p: Text) -> int {
        if self.next_index@.contains_key(p) { self.next_index@[p] as int } else { 1 }
    }

    /// The index that precedes what a leader sends to peer `p`.
    pub open spec fn prev_for(&self, p: Text) -> int {
        if self.next_for(p) > 0 { self.next_for(p) - 1 } else { 0 }
    }

    /// Whether the log still holds what peer `p` needs: the term before its
    /// next index and every entry from there.
    pub open spec fn can_send_to(&self, p: Text) -> bool {
        self.log.term_of(self.prev_for(p)) is Some && self.prev_for(p) >= self.log.offset
    }

    /// The append a leader sends to peer `p`: the log's entries from the
    /// peer's next index to the end, after the index and term before them.
    pub open spec fn append_for(&self, p: Text, m: RaftMessage) -> bool {
        let prev = self.prev_for(p);
        &&& m matches RaftMessage::AppendEntries { term, leader_id, prev_log_index, prev_log_term, entries, leader_commit }
        &&& term == self.state.current_term
        &&& leader_id@ == self.state.node_id@
        &&& prev_log_index == prev
        &&& self.log.term_of(prev) == Some(prev_log_term)
        &&& leader_commit == self.log.committed_index
        &&& entries@.len() == self.log.last() - prev
        &&& forall|j: int| 0 <= j < entries@.len() ==> {
            &&& (#[trigger] entries@[j]).index == prev + 1 + j
            &&& entries@[j].term == self.log.logs@[prev + j - self.log.offset].term
            &&& entries@[j].data@ == self.log.logs@[prev + j - self.log.offset].data@
            &&& entries@[j].timestamp == self.log.logs@[prev + j - self.log.offset].timestamp
        }
    }

    /// An append addressed to some peer, as that peer needs it.
    pub open spec fn sent_well(&self, e: (String, RaftMessage)) -> bool {
        exists|j: int| 0 <= j < self.peers@.len() && e.0@ == self.peers@[j]@ && self.can_send_to(self.peers@[j]@)
            && self.append_for(self.peers@[j]@, e.1)
    }

    /// Whether some message of `r` goes to peer `p`.
    pub open spec fn reaches(r: Seq<(String, RaftMessage)>, p: Text) -> bool {
        exists|i: int| 0 <= i < r.len() && r[i].0@ == p
    }

    /// What replication sends: nothing unless leading; otherwise one append
    /// to each peer whose next entries the log still holds.
    pub open spec fn replicate_post(&self, r: Seq<(String, RaftMessage)>) -> bool {
        &&& self.state.role != NodeRole::Leader ==> r.len() == 0
        &&& forall|i: int| 0 <= i < r.len() ==> self.sent_well(#[trigger] r[i])
        &&& self.state.role == NodeRole::Leader ==> forall|j: int| 0 <= j < self.peers@.len()
            && self.can_send_to(#[trigger] self.peers@[j]@) ==> Self::reaches(r, self.peers@[j]@)
    }

    /// The appends a leader sends: to each peer the entries from its next
    /// index to the end of the log. With nothing to send it is a heartbeat.
    /// The bookkeeping changes only when answers arrive.
    pub fn replicate_logs(&self) -> (r: Vec<(String, RaftMessage)>)
        requires
            self.wf(),
        ensures
            self.replicate_post(r@),
    {
        let mut out: Vec<(String, RaftMessage)> = Vec::new();
        if self.state.role != NodeRole::Leader {
            return out;
        }
        let last = self.log.offset + self.log.logs.len() as u64;
        let mut i: usize = 0;
        while i < self.peers.len()
            invariant
                self.wf(),
                self.state.role == NodeRole::Leader,
                last == self.log.last(),
                i <= self.peers@.len(),
                forall|k: int| 0 <= k < out@.len() ==> self.sent_well(#[trigger] out@[k]),
                forall|j: int| 0 <= j < i && self.can_send_to(#[trigger] self.peers@[j]@)
                    ==> Self::reaches(out@, self.peers@[j]@),
            decreases self.peers@.len() - i,
        {
            let next: u64 = match self.next_index.get(&self.peers[i]) {
                Some(v) => *v,
                None => 1,
            };
            let prev = if next > 0 { next - 1 } else { 0 };
            let ghost p = self.peers@[i as int]@;
            proof {
                assert(prev == self.prev_for(p));
            }
            match self.log.term_at(prev) {
                Some(prev_term) => {
                    if prev >= self.log.offset {
                        let entries = match self.log.get_range(prev + 1, last) {
                            Ok(v) => v,
                            Err(_) => Vec::new(),
                        };
                        let msg = RaftMessage::AppendEntries {
                            term: self.state.current_term,
                            leader_id: self.state.node_id.clone(),
                            prev_log_index: prev,
                            prev_log_term: prev_term,
                            entries,
                            leader_commit: self.log.committed_index,
                        };
                        proof {
                            assert(self.append_for(p, msg));
                        }
                        let ghost before = out@;
                        out.push((self.peers[i].clone(), msg));
                        proof {
                            assert forall|k: int| 0 <= k < out@.len() implies self.sent_well(#[trigger] out@[k]) by {
                                if k < before.len() {
                                    assert(out@[k] == before[k]);
                                    assert(self.sent_well(before[k]));
                                } else {
                                    assert(out@[k].0@ == self.peers@[i as int]@);
                                }
                            }
                            assert forall|j: int| 0 <= j < i + 1 && self.can_send_to(#[trigger] self.peers@[j]@)
                                implies Self::reaches(out@, self.peers@[j]@) by {
                                if j == i {
                                    assert(out@[before.len() as int].0@ == self.peers@[j]@);
                                } else {
                                    assert(Self::reaches(before, self.peers@[j]@));
                                    let k = choose|k: int| 0 <= k < before.len() && before[k].0@ == self.peers@[j]@;
                                    assert(out@[k] == before[k]);
                                }
                            }
                        }
                    }
                },
                None => {},
            }
            i = i + 1;
        }
        out
    }

    /// Handles one message from `from` at `now`, giving the messages to send
    /// in return: a vote request and an append are answered; a granted vote
    /// that wins the election is followed by a heartbeat to every peer; an
    /// answer to an append updates the bookkeeping; a heartbeat of a current
    /// term makes this node follow and restarts its election timer.
    pub fn handle_message(&mut self, from: &String, message: RaftMessage, now: u64) -> (r: Vec<(String, RaftMessage)>)
        requires
            old(self).wf(),
            old(self).peers@.len() < u64::MAX,
            old(self).log.last() < u64::MAX - 1,
        ensures
            final(self).wf(),
            match message {
                RaftMessage::RequestVote { term, candidate_id, last_log_index, last_log_term } =>
                    r@.len() == 1 && r@[0].0@ == from@ && Self::vote_request_post(*old(self), *final(self), r@[0].1,
                        candidate_id@, term, last_log_index, last_log_term),
                RaftMessage::AppendEntries { term, leader_id, prev_log_index, prev_log_term, entries, leader_commit } =>
                    r@.len() == 1 && r@[0].0@ == from@ && Self::append_entries_post(*old(self), *final(self), r@[0].1,
                        term, prev_log_index, prev_log_term, entries@, leader_commit, now),
                RaftMessage::RequestVoteResponse { term, vote_granted } =>
                    Self::vote_response_post(*old(self), *final(self), old(self).wins_with(term, vote_granted), term, vote_granted, now)
                    && (old(self).wins_with(term, vote_granted) ==> final(self).replicate_post(r@))
                    && (!old(self).wins_with(term, vote_granted) ==> r@.len() == 0),
                RaftMessage::AppendEntriesResponse { term, success, match_index } =>
                    r@.len() == 0 && Self::append_response_post(*old(self), *final(self), from@, term, success, match_index),
                RaftMessage::Heartbeat { term, leader_id } =>
                    r@.len() == 0 && (term < old(self).state.current_term ==> *final(self) == *old(self))
                    && (term >= old(self).state.current_term ==> final(self).state.current_term == term
                        && final(self).state.role == NodeRole::Follower && final(self).state.last_election_time == now
                        && final(self).log == old(self).log),
            },
    {
        match message {
            RaftMessage::RequestVote { term, candidate_id, last_log_index, last_log_term } => {
                let reply = self.handle_vote_request(candidate_id.as_str(), term, last_log_index, last_log_term, now);
                let mut out: Vec<(String, RaftMessage)> = Vec::new();
                out.push((from.clone(), reply));
                out
            },
            RaftMessage::AppendEntries { term, leader_id, prev_log_index, prev_log_term, entries, leader_commit } => {
                let reply = self.handle_append_entries(
                    term, leader_id.as_str(), prev_log_index, prev_log_term, entries, leader_commit, now);
                let mut out: Vec<(String, RaftMessage)> = Vec::new();
                out.push((from.clone(), reply));
                out
            },
            RaftMessage::RequestVoteResponse { term, vote_granted } => {
                if self.handle_vote_response(term, vote_granted, now) {
                    self.replicate_logs()
                } else {
                    Vec::new()
                }
            },
            RaftMessage::AppendEntriesResponse { term, success, match_index } => {
                self.handle_append_entries_response(from, term, success, match_index);
                Vec::new()
            },
            RaftMessage::Heartbeat { term, leader_id: _ } => {
                if term >= self.state.current_term {
                    let _ = self.state.update_term(term);
                    self.state.role = NodeRole::Follower;
                    self.state.reset_election_timeout_at(now);
                }
                Vec::new()
            },
        }
    }

    /// Counts the peers that have replicated up to `n`.
    fn matched_count(&self, n: u64) -> (r: u64)
        requires
            self.match_index.wf(),
            self.peers@.len() < u64::MAX,
        ensures
            r == count_matched(self.peer_ids(), self.match_index@, n as int),
            r <= self.peers@.len(),
    {
        let mut c: u64 = 0;
        let mut i: usize = 0;
        proof {
            assert(self.peer_ids().subrange(0, 0) =~= Seq::<Text>::empty());
        }
        while i < self.peers.len()
            invariant
                self.match_index.wf(),
                self.peers@.len() < u64::MAX,
                i <= self.peers@.len(),
                c == count_matched(self.peer_ids().subrange(0, i as int), self.match_index@, n as int),
                c <= i,
            decreases self.peers@.len() - i,
        {
            let hit = match self.match_index.get(&self.peers[i]) {
                Some(m) => *m >= n,
                None => false,
            };
            proof {
                let sub = self.peer_ids().subrange(0, i as int + 1);
                assert(sub.drop_last() =~= self.peer_ids().subrange(0, i as int));
                assert(sub.last() == self.peers@[i as int]@);
            }
            if hit {
                c = c + 1;
            }
            i = i + 1;
        }
        proof {
            assert(self.peer_ids().subrange(0, self.peers@.len() as int) =~= self.peer_ids());
        }
        c
    }

    /// On a leader, commits up to the largest committable index, if there is
    /// one; on any other node, changes nothing.
    pub fn update_commit_index(&mut self)
        requires
            old(self).wf(),
            old(self).peers@.len() < u64::MAX,
        ensures
            final(self).wf(),
            old(self).state.role != NodeRole::Leader ==> *final(self) == *old(self),
            final(self).state == old(self).state,
            final(self).peers == old(self).peers,
            final(self).next_index == old(self).next_index,
            final(self).match_index == old(self).match_index,
            final(self).log.logs == old(self).log.logs,
            final(self).log.offset == old(self).log.offset,
            final(self).log.current_snapshot == old(self).log.current_snapshot,
            final(self).log.committed_index >= old(self).log.committed_index,
            final(self).log.committed_index > old(self).log.committed_index ==>
                old(self).committable(final(self).log.committed_index as int),
            old(self).state.role == NodeRole::Leader ==> forall|n: int| final(self).log.committed_index < n <= old(self).log.last()
                ==> !#[trigger] old(self).committable(n),
    {
        let ghost s0 = *self;
        if self.state.role != NodeRole::Leader {
            return;
        }
        let last = self.log.offset + self.log.logs.len() as u64;
        let half = ((self.peers.len() as u64) + 1) / 2;
        let mut n = last;
        while n > self.log.committed_index
            invariant
                *self == s0,
                s0 == *old(self),
                self.state.role == NodeRole::Leader,
                self.wf(),
                self.peers@.len() < u64::MAX,
                last == self.log.last(),
                half == (self.peers@.len() + 1) / 2,
                self.log.committed_index <= n <= last,
                forall|m: int| n < m <= last ==> !#[trigger] self.committable(m),
            decreases n,
        {
            let t = self.log.term_at(n);
            let cnt = self.matched_count(n);
            proof {
                assert(self.log.entry(n as int) is Some);
            }
            if t == Some(self.state.current_term) && cnt + 1 > half {
                let _ = self.log.commit(n);
                proof {
                    assert(self.state == s0.state);
                    assert(self.peers == s0.peers);
                }
                return;
            }
            n = n - 1;
        }
    }

    /// Sets up replication on becoming leader: every peer is next sent the
    /// entry after the log's end and is known to hold nothing.
    pub fn initialize_leader_state(&mut self)
        requires
            old(self).wf(),
            old(self).log.last() < u64::MAX,
        ensures
            final(self).wf(),
            final(self).state == old(self).state,
            final(self).log == old(self).log,
            final(self).peers == old(self).peers,
            forall|i: int| 0 <= i < old(self).peers@.len() ==> {
                &&& final(self).next_index@.contains_key(#[trigger] old(self).peers@[i]@)
                &&& final(self).next_index@[old(self).peers@[i]@] == old(self).log.last() + 1
                &&& final(self).match_index@.contains_key(old(self).peers@[i]@)
                &&& final(self).match_index@[old(self).peers@[i]@] == 0
            },
    {
        let next = self.log.offset + self.log.logs.len() as u64 + 1;
        let mut i: usize = 0;
        while i < self.peers.len()
            invariant
                self.wf(),
                self.state == old(self).state,
                self.log == old(self).log,
                self.peers == old(self).peers,
                next == self.log.last() + 1,
                i <= self.peers@.len(),
                forall|j: int| 0 <= j < i ==> {
                    &&& self.next_index@.contains_key(#[trigger] self.peers@[j]@)
                    &&& self.next_index@[self.peers@[j]@] == next
                    &&& self.match_index@.contains_key(self.peers@[j]@)
                    &&& self.match_index@[self.peers@[j]@] == 0
                },
            decreases self.peers@.len() - i,
        {
            let p = self.peers[i].clone();
            let p2 = self.peers[i].clone();
            self.next_index.insert(p, next);
            self.match_index.insert(p2, 0);
            i = i + 1;
        }
    }
}

} // verus!
