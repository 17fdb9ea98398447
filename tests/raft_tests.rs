use redis_imitate::node::{propose, ApplyProgress};
use redis_imitate::raft_error::RaftError;
use redis_imitate::raft_state::{NodeRole, RaftConfig, RaftState};
use redis_imitate::log_store::MemLogStore;
use redis_imitate::message::{LogEntry, RaftMessage};
use redis_imitate::consensus::ConsensusCore;

fn setup_test_state() -> RaftState {
    RaftState::new(
        "node1".to_string(),
        Some(RaftConfig {
            election_timeout_min: 150,
            election_timeout_max: 300,
            heartbeat_interval: 50,
        }),
    )
}

fn create_test_log_entry(index: u64, term: u64, data: &[u8], timestamp: u64) -> LogEntry {
    LogEntry {
        index,
        term,
        data: data.to_vec(),
        timestamp,
    }
}

fn setup_test_log_store() -> MemLogStore {
    MemLogStore::new()
}

#[test]
fn test_initial_state() {
    let state = setup_test_state();
    assert_eq!(state.role, NodeRole::Follower);
    assert_eq!(state.current_term, 0);
    assert_eq!(state.voted_for, None);
}

#[test]
fn test_begin_election() {
    let mut state = setup_test_state();
    state.begin_election();

    assert_eq!(state.role, NodeRole::Candidate);
    assert_eq!(state.current_term, 1);
    assert_eq!(state.voted_for, Some("node1".to_string()));
    assert_eq!(state.votes_received, 1);
}

#[test]
fn test_vote_request() {
    let mut state = setup_test_state();

    let result = state.handle_vote_request("node2", 1, 0, 0).unwrap();
    assert!(result);
    assert_eq!(state.voted_for, Some("node2".to_string()));

    let result = state.handle_vote_request("node3", 1, 0, 0).unwrap();
    assert!(!result);
    assert_eq!(state.voted_for, Some("node2".to_string()));
}

#[test]
fn test_append_and_get_logs() {
    let mut store = setup_test_log_store();

    let entries = vec![
        create_test_log_entry(1, 1, b"log1", 100),
        create_test_log_entry(2, 1, b"log2", 200),
    ];
    store.append(entries).unwrap();

    assert_eq!(store.last_index().unwrap(), 2);

    let entry1 = store.get(1).unwrap();
    assert!(entry1.is_some());
    assert_eq!(entry1.unwrap(), create_test_log_entry(1, 1, b"log1", 100));

    let entry2 = store.get(2).unwrap();
    assert!(entry2.is_some());
    assert_eq!(entry2.unwrap(), create_test_log_entry(2, 1, b"log2", 200));
}

#[test]
fn test_get_range_of_logs() {
    let mut store = setup_test_log_store();

    let entries = vec![
        create_test_log_entry(1, 1, b"log1", 100),
        create_test_log_entry(2, 1, b"log2", 200),
        create_test_log_entry(3, 1, b"log3", 300),
    ];
    store.append(entries).unwrap();

    let range = store.get_range(2, 3).unwrap();
    assert_eq!(range.len(), 2);
    assert_eq!(range[0], create_test_log_entry(2, 1, b"log2", 200));
    assert_eq!(range[1], create_test_log_entry(3, 1, b"log3", 300));
}

#[test]
fn default_config_timing() {
    let c = RaftConfig::default();
    assert_eq!((c.election_timeout_min, c.election_timeout_max, c.heartbeat_interval), (150, 300, 50));
    let s = RaftState::new("n".to_string(), None);
    assert!(s.election_timeout >= 150 && s.election_timeout <= 300);
    assert_eq!(s.heartbeat_interval, 50);
}

#[test]
fn stale_vote_request_is_refused() {
    let mut state = setup_test_state();
    state.begin_election();
    state.begin_election();
    assert_eq!(state.handle_vote_request("node2", 1, 5, 5).unwrap(), false);
    assert_eq!(state.current_term, 2);
}

#[test]
fn higher_term_resets_vote_and_demotes() {
    let mut state = setup_test_state();
    state.begin_election();
    assert!(state.update_term(0).is_err());
    state.update_term(4).unwrap();
    assert_eq!(state.current_term, 4);
    assert_eq!(state.voted_for, None);
    assert_eq!(state.role, NodeRole::Follower);
}

#[test]
fn candidate_with_older_log_gets_no_vote() {
    let mut state = setup_test_state();
    state.last_log_index = 5;
    state.last_log_term = 3;
    assert_eq!(state.handle_vote_request("node2", 1, 9, 2).unwrap(), false);
    assert_eq!(state.handle_vote_request("node2", 1, 4, 3).unwrap(), false);
    assert_eq!(state.handle_vote_request("node2", 1, 5, 3).unwrap(), true);
}

#[test]
fn majority_wins_election() {
    let mut state = setup_test_state();
    state.begin_election();
    assert!(!state.check_election_won(3 + 1));
    state.receive_vote(true);
    assert!(state.check_election_won(3));
    state.become_leader();
    assert_eq!(state.role, NodeRole::Leader);
    state.receive_vote(true);
    assert_eq!(state.votes_received, 2);
}

#[test]
fn election_and_heartbeat_timers() {
    let mut state = setup_test_state();
    state.reset_election_timeout_at(1_000);
    let t = state.election_timeout;
    assert!(!state.should_begin_election_at(1_000 + t - 1));
    assert!(state.should_begin_election_at(1_000 + t));
    state.begin_election_at(2_000);
    state.become_leader_at(2_000);
    assert!(!state.should_begin_election_at(1_000_000));
    assert!(!state.should_send_heartbeat_at(2_049));
    assert!(state.should_send_heartbeat_at(2_050));
    state.update_heartbeat_at(3_000);
    assert!(!state.should_send_heartbeat_at(3_010));
}

fn entry(index: u64, term: u64) -> LogEntry {
    LogEntry::new(term, index, vec![index as u8], 0)
}

#[test]
fn append_gap_and_overlap() {
    let mut store = MemLogStore::new();
    store.append(vec![entry(1, 1), entry(2, 1), entry(3, 2)]).unwrap();
    assert!(store.append(vec![entry(5, 2)]).is_err());
    assert_eq!(store.append(vec![entry(3, 3), entry(4, 3)]).unwrap(), 4);
    assert_eq!(store.last_term().unwrap(), 3);
    assert_eq!(store.get(3).unwrap().unwrap().term, 3);
    assert_eq!(store.get(0).unwrap(), None);
    assert!(store.append(vec![entry(5, 3), entry(7, 3)]).is_err());
}

#[test]
fn commit_is_monotonic_and_bounded() {
    let mut store = MemLogStore::new();
    store.append(vec![entry(1, 1), entry(2, 1), entry(3, 1)]).unwrap();
    store.commit(2).unwrap();
    assert!(store.commit(1).is_err());
    assert!(store.commit(4).is_err());
    assert_eq!(store.committed_index().unwrap(), 2);
    store.delete_from(2).unwrap();
    assert_eq!(store.committed_index().unwrap(), 1);
    assert_eq!(store.last_index().unwrap(), 1);
}

#[test]
fn snapshot_compacts_and_restores() {
    let mut store = MemLogStore::new();
    store.append(vec![entry(1, 1), entry(2, 1), entry(3, 2)]).unwrap();
    assert!(store.snapshot(7).unwrap().is_none());
    store.commit(2).unwrap();
    let (meta, prefix) = store.snapshot(7).unwrap().unwrap();
    assert_eq!((meta.last_index, meta.last_term, meta.timestamp), (2, 1, 7));
    assert_eq!(prefix.len(), 2);
    assert_eq!(store.last_index().unwrap(), 3);
    assert_eq!(store.get(1).unwrap(), None);
    assert_eq!(store.get(3).unwrap().unwrap().term, 2);
    let mut other = MemLogStore::new();
    other.restore_snapshot(meta, prefix).unwrap();
    assert_eq!(other.last_index().unwrap(), 2);
    assert_eq!(other.committed_index().unwrap(), 2);
    let older = redis_imitate::log_store::SnapshotMetadata { last_index: 1, last_term: 1, timestamp: 0 };
    assert!(other.restore_snapshot(older, vec![entry(1, 1)]).is_err());
}

fn follower_with_terms(terms: &[u64]) -> ConsensusCore {
    let mut core = ConsensusCore::new(setup_test_state(), vec!["node2".to_string(), "node3".to_string()]);
    let entries: Vec<LogEntry> = terms.iter().enumerate().map(|(i, t)| entry(i as u64 + 1, *t)).collect();
    core.log.append(entries).unwrap();
    core
}

#[test]
fn log_match_check_on_append() {
    let mut core = follower_with_terms(&[1, 1, 2]);
    let r = core.handle_append_entries(3, "node2", 3, 3, vec![], 0, 10);
    assert_eq!(r, RaftMessage::AppendEntriesResponse { term: 3, success: false, match_index: 0 });
    let r = core.handle_append_entries(3, "node2", 3, 2, vec![], 0, 10);
    assert_eq!(r, RaftMessage::AppendEntriesResponse { term: 3, success: true, match_index: 3 });
}

#[test]
fn append_replaces_conflicting_tail_and_follows_commit() {
    let mut core = follower_with_terms(&[1, 1, 2]);
    let r = core.handle_append_entries(3, "node2", 2, 1, vec![entry(3, 3), entry(4, 3)], 9, 10);
    assert_eq!(r, RaftMessage::AppendEntriesResponse { term: 3, success: true, match_index: 4 });
    assert_eq!(core.log.last_index().unwrap(), 4);
    assert_eq!(core.log.get(3).unwrap().unwrap().term, 3);
    assert_eq!(core.log.committed_index().unwrap(), 4);
    assert_eq!(core.state.role, NodeRole::Follower);
    let stale = core.handle_append_entries(1, "node3", 0, 0, vec![], 0, 11);
    assert_eq!(stale, RaftMessage::AppendEntriesResponse { term: 3, success: false, match_index: 0 });
}

#[test]
fn three_node_election_then_heartbeat() {
    let mut core = follower_with_terms(&[]);
    let t = core.state.election_timeout;
    let last = core.state.last_election_time;
    assert!(core.handle_election_timeout(last + t - 1).is_empty());
    let asks = core.handle_election_timeout(last + t);
    assert_eq!(asks.len(), 2);
    assert_eq!(core.state.current_term, 1);
    assert_eq!(core.state.role, NodeRole::Candidate);
    assert!(core.handle_vote_response(1, true, last + t + 5));
    assert_eq!(core.state.role, NodeRole::Leader);
    let beats = core.replicate_logs();
    assert_eq!(beats.len(), 2);
    match &beats[0].1 {
        RaftMessage::AppendEntries { term, prev_log_index, entries, .. } => {
            assert_eq!((*term, *prev_log_index, entries.len()), (1, 0, 0));
        }
        _ => panic!("expected an append"),
    }
}

#[test]
fn leader_commits_on_majority_of_current_term() {
    let mut core = follower_with_terms(&[]);
    let t = core.state.election_timeout;
    let last = core.state.last_election_time;
    core.handle_election_timeout(last + t);
    core.handle_vote_response(1, true, last + t);
    core.log.append(vec![entry(1, 1), entry(2, 1)]).unwrap();
    let peer = "node2".to_string();
    core.handle_append_entries_response(&peer, 1, false, 0);
    core.handle_append_entries_response(&peer, 1, true, 2);
    assert_eq!(core.log.committed_index().unwrap(), 2);
    core.handle_append_entries_response(&peer, 5, false, 0);
    assert_eq!(core.state.role, NodeRole::Follower);
    assert_eq!(core.state.current_term, 5);
}

#[test]
fn only_a_leader_proposes() {
    let mut core = follower_with_terms(&[1]);
    assert_eq!(propose(&mut core, vec![1, 2], 0), Err(RaftError::NotLeader));
    let t = core.state.election_timeout;
    let last = core.state.last_election_time;
    core.handle_election_timeout(last + t);
    core.handle_vote_response(1, true, last + t);
    assert_eq!(core.state.role, NodeRole::Leader);
    assert_eq!(propose(&mut core, vec![1, 2], 0), Ok(2));
    let e = core.log.get(2).unwrap().unwrap();
    assert_eq!((e.term, e.index, e.data), (1, 2, vec![1, 2]));

    let mut progress = ApplyProgress::new(2);
    assert!(progress.pending(&core.log).is_empty());
    core.log.commit(2).unwrap();
    let todo = progress.pending(&core.log);
    assert_eq!(todo.iter().map(|e| e.index).collect::<Vec<_>>(), vec![1, 2]);
    assert!(!progress.check_snapshot());
    progress.mark_applied(2);
    assert!(progress.check_snapshot());
    progress.snapshot_taken();
    assert!(!progress.check_snapshot());
}

#[test]
fn node_command_keeps_its_fields() {
    let c = redis_imitate::node::Command::new("SET".to_string(), "k".to_string(), Some(vec![1]));
    assert_eq!((c.operation.as_str(), c.key.as_str(), c.value), ("SET", "k", Some(vec![1])));
}

#[test]
fn matching_entries_keep_the_tail() {
    let mut core = follower_with_terms(&[1, 1, 2, 2]);
    let r = core.handle_append_entries(2, "node2", 1, 1, vec![entry(2, 1)], 0, 10);
    assert_eq!(r, RaftMessage::AppendEntriesResponse { term: 2, success: true, match_index: 2 });
    assert_eq!(core.log.last_index().unwrap(), 4);
}

#[test]
fn conflict_at_a_committed_index_is_refused() {
    let mut core = follower_with_terms(&[1, 1, 2]);
    core.log.commit(3).unwrap();
    let r = core.handle_append_entries(3, "node2", 1, 1, vec![entry(2, 3)], 3, 10);
    assert_eq!(r, RaftMessage::AppendEntriesResponse { term: 3, success: false, match_index: 0 });
    assert_eq!(core.log.last_index().unwrap(), 3);
    let r = core.handle_append_entries(3, "node2", 1, 1, vec![], 3, 11);
    assert_eq!(r, RaftMessage::AppendEntriesResponse { term: 3, success: true, match_index: 1 });
    assert_eq!(core.log.committed_index().unwrap(), 3);
    assert_eq!(core.log.last_index().unwrap(), 3);
}

#[test]
fn success_beyond_the_log_is_recorded_and_followers_do_not_replicate() {
    let mut core = follower_with_terms(&[]);
    assert!(core.replicate_logs().is_empty());
    let t = core.state.election_timeout;
    let last = core.state.last_election_time;
    core.handle_election_timeout(last + t);
    core.handle_vote_response(1, true, last + t);
    let peer = "node3".to_string();
    core.handle_append_entries_response(&peer, 1, true, 7);
    assert_eq!(core.log.committed_index().unwrap(), 0);
    let beats = core.replicate_logs();
    assert_eq!(beats.len(), 1);
    assert_eq!(beats[0].0, "node2");
}

#[test]
fn unset_peer_gets_the_whole_log() {
    let mut core = follower_with_terms(&[]);
    let t = core.state.election_timeout;
    let last = core.state.last_election_time;
    core.handle_election_timeout(last + t);
    core.handle_vote_response(1, true, last + t);
    core.log.append(vec![entry(1, 1), entry(2, 1)]).unwrap();
    core.next_index = redis_imitate::table::Table::new();
    let out = core.replicate_logs();
    assert_eq!(out.len(), 2);
    match &out[0].1 {
        RaftMessage::AppendEntries { prev_log_index, prev_log_term, entries, .. } => {
            assert_eq!((*prev_log_index, *prev_log_term, entries.len()), (0, 0, 2));
            assert_eq!(entries[1], entry(2, 1));
        }
        _ => panic!("expected an append"),
    }
}
