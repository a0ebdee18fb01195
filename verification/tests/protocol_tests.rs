use consensus_protocol::{CommitIndex, ConsensusState, LogEntry, LogReplication, RaftLeaderElection, Vote};

fn entry(term: u64, byte: u8, index: usize) -> LogEntry {
    LogEntry::new(term, vec![byte], index)
}

#[test]
fn log_entry_new_keeps_fields() {
    let e = LogEntry::new(7, vec![1, 2, 3], 4);
    assert_eq!(e.term, 7);
    assert_eq!(e.data, vec![1, 2, 3]);
    assert_eq!(e.index, 4);
}

#[test]
fn advance_term_to_same_term_keeps_vote() {
    let mut s = ConsensusState::new("n1");
    s.advance_term(3);
    assert!(s.cast_vote("n2"));
    s.advance_term(3);
    assert_eq!(s.current_term, 3);
    assert_eq!(s.voted_for, Some("n2".to_string()));
}

#[test]
fn vote_at_most_once_per_term_then_again_after_higher_term() {
    let mut s = ConsensusState::new("n1");
    assert!(s.cast_vote("a"));
    assert!(!s.cast_vote("b"));
    assert_eq!(s.voted_for, Some("a".to_string()));
    s.advance_term(1);
    assert!(s.voted_for.is_none());
    assert!(s.cast_vote("b"));
    assert_eq!(s.voted_for, Some("b".to_string()));
}

#[test]
fn truncate_past_end_only_appends() {
    let mut s = ConsensusState::new("n1");
    s.append_entry(entry(1, 1, 1));
    s.append_entry(entry(1, 2, 2));
    s.truncate_and_append(10, vec![entry(2, 3, 3)]);
    assert_eq!(s.log.len(), 3);
    assert_eq!(s.log[0].data, vec![1]);
    assert_eq!(s.log[2].term, 2);
    assert_eq!(s.last_log_index(), 3);
    assert_eq!(s.last_log_term(), 2);
}

#[test]
fn truncate_in_middle_keeps_prefix() {
    let mut s = ConsensusState::new("n1");
    s.append_entry(entry(1, 1, 1));
    s.append_entry(entry(1, 2, 2));
    s.append_entry(entry(1, 3, 3));
    s.truncate_and_append(1, vec![entry(4, 8, 2), entry(4, 9, 3)]);
    assert_eq!(s.log.len(), 3);
    assert_eq!(s.log[0].data, vec![1]);
    assert_eq!(s.log[1].data, vec![8]);
    assert_eq!(s.log[2].term, 4);
}

#[test]
fn election_getters() {
    let mut e = RaftLeaderElection::new("n1", 300);
    assert_eq!(e.election_timeout(), 300);
    assert_eq!(e.peer_count(), 0);
    assert_eq!(e.cluster_size(), 1);
    e.add_peer("n2");
    e.add_peer("n2");
    e.add_peer("n3");
    assert_eq!(e.peer_count(), 2);
    assert_eq!(e.cluster_size(), 3);
}

#[test]
fn single_node_cluster_wins_alone() {
    let mut e = RaftLeaderElection::new("solo", 150);
    let mut s = ConsensusState::new("solo");
    e.start_election(&mut s);
    // A vote for someone else is ignored, and the node's own vote is a majority of 1.
    assert!(e.receive_vote(Vote::new("solo", "other", 1)));
}

#[test]
fn start_election_moves_to_next_term_and_votes_for_self() {
    let mut e = RaftLeaderElection::new("n1", 150);
    let mut s = ConsensusState::new("n1");
    s.advance_term(6);
    s.cast_vote("n9");
    let v = e.start_election(&mut s);
    assert_eq!(s.current_term, 7);
    assert_eq!(s.voted_for, Some("n1".to_string()));
    assert_eq!(v, Vote::new("n1", "n1", 7));
}

#[test]
fn repeated_vote_counts_once() {
    let mut e = RaftLeaderElection::new("n1", 150);
    for p in ["n2", "n3", "n4", "n5"] {
        e.add_peer(p);
    }
    let mut s = ConsensusState::new("n1");
    e.start_election(&mut s);
    assert!(!e.receive_vote(Vote::new("n2", "n1", 1)));
    assert!(!e.receive_vote(Vote::new("n2", "n1", 1)));
    assert!(!e.receive_vote(Vote::new("n3", "n2", 1)));
    assert!(e.receive_vote(Vote::new("n4", "n1", 1)));
}

#[test]
fn reset_forgets_votes() {
    let mut e = RaftLeaderElection::new("n1", 150);
    e.add_peer("n2");
    let mut s = ConsensusState::new("n1");
    e.start_election(&mut s);
    e.reset();
    // cluster of 2 needs 2 votes; after reset only n2's vote is recorded
    assert!(!e.receive_vote(Vote::new("n2", "n1", 1)));
    assert!(e.receive_vote(Vote::new("n1", "n1", 1)));
}

#[test]
fn grant_vote_log_up_to_date_rules() {
    let e = RaftLeaderElection::new("n2", 150);
    let mut s = ConsensusState::new("n2");
    s.append_entry(entry(2, 1, 1));
    s.append_entry(entry(3, 2, 2));
    // older last term
    assert!(!e.should_grant_vote(&s, 5, 10, 2));
    // same last term, shorter log
    assert!(!e.should_grant_vote(&s, 5, 1, 3));
    // same last term, same length
    assert!(e.should_grant_vote(&s, 5, 2, 3));
    // newer last term, shorter log
    assert!(e.should_grant_vote(&s, 5, 1, 4));
    // equal candidate term is enough
    s.advance_term(5);
    assert!(e.should_grant_vote(&s, 5, 2, 3));
    // no second grant once voted
    s.cast_vote("n7");
    assert!(!e.should_grant_vote(&s, 6, 9, 9));
}

#[test]
fn append_returns_new_entry() {
    let mut r = LogReplication::new("n1");
    r.set_term(4);
    assert_eq!(r.term(), 4);
    let e = r.append(vec![1, 2]).clone();
    assert_eq!(e, LogEntry::new(4, vec![1, 2], 1));
    let e2 = r.append(vec![3]).clone();
    assert_eq!(e2.index, 2);
    assert_eq!(r.log_len(), 2);
    assert_eq!(r.log()[0].data, vec![1, 2]);
}

#[test]
fn entries_for_unknown_follower_sends_everything() {
    let mut r = LogReplication::new("n1");
    r.append(vec![1]);
    r.append(vec![2]);
    assert_eq!(r.entries_for("ghost").len(), 2);
}

#[test]
fn confirmed_entries_are_not_resent() {
    let mut r = LogReplication::new("n1");
    r.set_term(1);
    r.append(vec![1]);
    r.append(vec![2]);
    r.append(vec![3]);
    r.add_follower("n2");
    r.confirm_replication("n2", 2);
    let sent = r.entries_for("n2");
    assert_eq!(sent.len(), 1);
    assert_eq!(sent[0].index, 3);
    assert_eq!(sent[0].data, vec![3]);
}

#[test]
fn match_index_never_decreases() {
    let mut r = LogReplication::new("n1");
    r.add_follower("n2");
    r.add_follower("n3");
    assert_eq!(r.replication_count(1), 1);
    r.confirm_replication("n2", 3);
    r.confirm_replication("n2", 1);
    // n2 still counts as holding index 3, though it next receives index 2
    assert_eq!(r.replication_count(3), 2);
    assert_eq!(r.replication_count(0), 3);
    // an unknown follower changes nothing
    r.confirm_replication("n9", 5);
    assert_eq!(r.replication_count(3), 2);
}

#[test]
fn apply_entries_missing_previous_entry() {
    let mut r = LogReplication::new("n2");
    let result = r.apply_entries(3, 1, vec![entry(1, 1, 4)]);
    assert_eq!(result, Err("log missing previous entry".to_string()));
    assert_eq!(r.log_len(), 0);
}

#[test]
fn apply_entries_term_mismatch_message() {
    let mut r = LogReplication::new("n2");
    r.set_term(2);
    r.append(vec![1]);
    let result = r.apply_entries(1, 1, vec![entry(1, 1, 2)]);
    assert_eq!(result, Err("log term mismatch".to_string()));
    assert_eq!(r.log_len(), 1);
    assert_eq!(r.log()[0].term, 2);
}

#[test]
fn apply_entries_overwrites_after_matching_entry() {
    let mut r = LogReplication::new("n2");
    r.set_term(1);
    r.append(vec![1]);
    r.append(vec![2]);
    r.append(vec![3]);
    let result = r.apply_entries(1, 1, vec![entry(2, 9, 2)]);
    assert_eq!(result, Ok(1));
    assert_eq!(r.log_len(), 2);
    assert_eq!(r.log()[0].data, vec![1]);
    assert_eq!(r.log()[1].data, vec![9]);
    assert_eq!(r.log()[1].term, 2);
}

#[test]
fn commit_does_not_move_backwards() {
    let mut ci = CommitIndex::default();
    assert_eq!(ci.advance_to(4, 3, 2), 4);
    assert_eq!(ci.advance_to(2, 3, 3), 0);
    assert_eq!(ci.committed(), 4);
    assert_eq!(ci.advance_to(4, 3, 3), 0);
    assert_eq!(ci.advance_to(6, 4, 3), 2);
    assert_eq!(ci.committed(), 6);
}

#[test]
fn apply_committed_twice_applies_nothing_new() {
    let mut ci = CommitIndex::new();
    assert_eq!(ci.apply_committed(), 0);
    ci.advance_to(3, 1, 1);
    assert_eq!(ci.apply_committed(), 3);
    assert_eq!(ci.apply_committed(), 0);
    ci.advance_to(5, 1, 1);
    assert!(!ci.is_applied(4));
    assert_eq!(ci.apply_committed(), 2);
    assert!(ci.is_applied(5));
    assert!(ci.is_committed(5));
    assert!(!ci.is_committed(6));
}

#[test]
fn majority_of_even_cluster_is_strict() {
    let mut ci = CommitIndex::new();
    // cluster of 4 needs 3
    assert_eq!(ci.advance_to(1, 4, 2), 0);
    assert_eq!(ci.advance_to(1, 4, 3), 1);
}

#[test]
fn three_node_cluster_elects_replicates_and_commits() {
    let mut state = ConsensusState::new("node-1");
    let mut election = RaftLeaderElection::new("node-1", 150);
    election.add_peer("node-2");
    election.add_peer("node-3");
    let vote_request = election.start_election(&mut state);
    assert_eq!(vote_request.term, 1);
    assert!(election.receive_vote(Vote::new("node-2", "node-1", 1)));

    let mut replication = LogReplication::new("node-1");
    replication.set_term(1);
    replication.append(b"SET x = 42".to_vec());
    replication.append(b"SET y = 99".to_vec());
    replication.add_follower("node-2");
    replication.add_follower("node-3");
    assert_eq!(replication.entries_for("node-2").len(), 2);
    replication.confirm_replication("node-2", 2);
    let count = replication.replication_count(2);
    assert_eq!(count, 2);

    let mut commit = CommitIndex::new();
    assert_eq!(commit.advance_to(2, election.cluster_size(), count), 2);
    assert_eq!(commit.apply_committed(), 2);
}

#[test]
fn adding_a_follower_counts_only_at_index_zero() {
    let mut r = LogReplication::new("n1");
    r.add_follower("n2");
    r.confirm_replication("n2", 2);
    assert_eq!(r.replication_count(0), 2);
    assert_eq!(r.replication_count(2), 2);
    r.add_follower("n3");
    assert_eq!(r.replication_count(0), 3);
    assert_eq!(r.replication_count(1), 2);
    assert_eq!(r.replication_count(2), 2);
    assert_eq!(r.replication_count(3), 1);
}

#[test]
fn leader_log_indices_are_consecutive() {
    let mut r = LogReplication::new("n1");
    r.append(vec![1]);
    r.add_follower("n2");
    r.set_term(3);
    r.append(vec![2]);
    r.confirm_replication("n2", 1);
    r.append(vec![3]);
    for (i, e) in r.log().iter().enumerate() {
        assert_eq!(e.index, i + 1);
    }
    assert_eq!(r.log()[2].term, 3);
}
