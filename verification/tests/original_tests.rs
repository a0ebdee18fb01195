use consensus_protocol::{CommitIndex, ConsensusState, LogEntry, LogReplication, RaftLeaderElection, Vote};

#[test]
fn test_vote_creation() {
    let v = Vote::new("a", "b", 3);
    assert_eq!(v.voter_id, "a");
    assert_eq!(v.candidate_id, "b");
    assert_eq!(v.term, 3);
}

#[test]
fn test_vote_equality() {
    let v1 = Vote::new("x", "y", 1);
    let v2 = Vote::new("x", "y", 1);
    assert_eq!(v1, v2);
}

#[test]
fn test_consensus_state_new() {
    let s = ConsensusState::new("n1");
    assert_eq!(s.node_id, "n1");
    assert_eq!(s.current_term, 0);
    assert!(s.voted_for.is_none());
    assert!(s.log.is_empty());
}

#[test]
fn test_advance_term() {
    let mut s = ConsensusState::new("n1");
    s.cast_vote("n2");
    s.advance_term(5);
    assert_eq!(s.current_term, 5);
    assert!(s.voted_for.is_none());
}

#[test]
fn test_advance_term_ignores_lower() {
    let mut s = ConsensusState::new("n1");
    s.advance_term(10);
    s.advance_term(5);
    assert_eq!(s.current_term, 10);
}

#[test]
fn test_cast_vote_once() {
    let mut s = ConsensusState::new("n1");
    assert!(s.cast_vote("n2"));
    assert!(!s.cast_vote("n3")); // already voted
    assert_eq!(s.voted_for, Some("n2".to_string()));
}

#[test]
fn test_log_append_and_last() {
    let mut s = ConsensusState::new("n1");
    assert_eq!(s.last_log_index(), 0);
    assert_eq!(s.last_log_term(), 0);
    s.append_entry(LogEntry::new(1, vec![1], 1));
    s.append_entry(LogEntry::new(2, vec![2], 2));
    assert_eq!(s.last_log_index(), 2);
    assert_eq!(s.last_log_term(), 2);
}

#[test]
fn test_truncate_and_append() {
    let mut s = ConsensusState::new("n1");
    s.append_entry(LogEntry::new(1, vec![1], 1));
    s.append_entry(LogEntry::new(1, vec![2], 2));
    s.append_entry(LogEntry::new(2, vec![3], 3));
    s.truncate_and_append(0, vec![LogEntry::new(3, vec![9], 1)]);
    assert_eq!(s.log.len(), 1);
    assert_eq!(s.log[0].data, vec![9]);
}

#[test]
fn test_election_start() {
    let mut election = RaftLeaderElection::new("n1", 150);
    election.add_peer("n2");
    election.add_peer("n3");
    let mut state = ConsensusState::new("n1");
    let vote = election.start_election(&mut state);
    assert_eq!(vote.voter_id, "n1");
    assert_eq!(vote.candidate_id, "n1");
    assert_eq!(vote.term, 1);
    assert_eq!(state.current_term, 1);
    assert_eq!(state.voted_for, Some("n1".to_string()));
}

#[test]
fn test_election_win_with_majority() {
    let mut election = RaftLeaderElection::new("n1", 150);
    election.add_peer("n2");
    election.add_peer("n3");
    let mut state = ConsensusState::new("n1");
    election.start_election(&mut state);
    // Self vote is implicit
    assert!(election.receive_vote(Vote::new("n2", "n1", 1)));
}

#[test]
fn test_election_no_win_without_majority() {
    let mut election = RaftLeaderElection::new("n1", 150);
    election.add_peer("n2");
    election.add_peer("n3");
    election.add_peer("n4");
    election.add_peer("n5");
    let mut state = ConsensusState::new("n1");
    election.start_election(&mut state);
    // Need 3 of 5; only n1 (its own vote) and n2 have voted
    assert!(!election.receive_vote(Vote::new("n2", "n1", 1)));
}

#[test]
fn test_should_grant_vote() {
    let election = RaftLeaderElection::new("n2", 150);
    let state = ConsensusState::new("n2");
    assert!(election.should_grant_vote(&state, 1, 0, 0));
}

#[test]
fn test_should_deny_vote_lower_term() {
    let election = RaftLeaderElection::new("n2", 150);
    let mut state = ConsensusState::new("n2");
    state.advance_term(5);
    assert!(!election.should_grant_vote(&state, 3, 0, 0));
}

#[test]
fn test_should_deny_vote_already_voted() {
    let election = RaftLeaderElection::new("n2", 150);
    let mut state = ConsensusState::new("n2");
    state.cast_vote("n3");
    assert!(!election.should_grant_vote(&state, 1, 0, 0));
}

#[test]
fn test_log_replication_append() {
    let mut r = LogReplication::new("n1");
    r.set_term(1);
    r.append(b"set x=1".to_vec());
    r.append(b"set y=2".to_vec());
    assert_eq!(r.log_len(), 2);
    assert_eq!(r.log()[0].term, 1);
    assert_eq!(r.log()[1].index, 2);
}

#[test]
fn test_log_replication_to_follower() {
    let mut r = LogReplication::new("n1");
    r.set_term(1);
    r.append(b"cmd1".to_vec());
    r.append(b"cmd2".to_vec());
    r.add_follower("n2");
    let entries = r.entries_for("n2");
    assert_eq!(entries.len(), 2);
    r.confirm_replication("n2", 2);
    assert_eq!(r.replication_count(2), 2); // self + n2
}

#[test]
fn test_apply_entries_follower() {
    let mut r = LogReplication::new("n2");
    let entries = vec![
        LogEntry::new(1, b"a".to_vec(), 1),
        LogEntry::new(1, b"b".to_vec(), 2),
    ];
    let count = r.apply_entries(0, 0, entries).unwrap();
    assert_eq!(count, 2);
    assert_eq!(r.log_len(), 2);
}

#[test]
fn test_apply_entries_mismatch() {
    let mut r = LogReplication::new("n2");
    r.set_term(2);
    r.append(b"x".to_vec());
    let entries = vec![LogEntry::new(1, b"a".to_vec(), 1)];
    let result = r.apply_entries(1, 1, entries);
    assert!(result.is_err());
}

#[test]
fn test_commit_index_advance() {
    let mut ci = CommitIndex::new();
    assert_eq!(ci.committed(), 0);
    let newly = ci.advance_to(3, 3, 2); // cluster=3, repl=2, majority=2
    assert_eq!(newly, 3);
    assert_eq!(ci.committed(), 3);
}

#[test]
fn test_commit_index_no_advance_without_majority() {
    let mut ci = CommitIndex::new();
    let newly = ci.advance_to(3, 5, 2); // cluster=5, repl=2, majority=3
    assert_eq!(newly, 0);
    assert_eq!(ci.committed(), 0);
}

#[test]
fn test_commit_apply() {
    let mut ci = CommitIndex::new();
    ci.advance_to(5, 3, 2);
    let applied = ci.apply_committed();
    assert_eq!(applied, 5);
    assert_eq!(ci.last_applied(), 5);
    assert!(ci.is_committed(3));
    assert!(ci.is_applied(3));
    assert!(!ci.is_applied(6));
}
