# consensus_protocol

Verified building blocks of Raft-style consensus, written in Verus.

- `src/entry.rs` — `Vote` and `LogEntry`, with their models.
- `src/state.rs` — `ConsensusState`: term, vote and log of a participant;
  laws on term monotonicity and one vote per term.
- `src/election.rs` — `RaftLeaderElection`: starting elections, counting
  votes against a strict majority, and the vote-granting rule.
- `src/quorum.rs` — majorities and the election-safety argument: two
  majorities of one cluster intersect, so one term elects at most one leader.
- `src/replication.rs` — `LogReplication`: the leader's append-only log,
  per-follower next/match indices, and the follower's consistency check.
- `src/commit.rs` — `CommitIndex`: commitment that needs a majority and is
  never lost, and application that never runs ahead of commitment.
- `src/peer_map.rs` — the map from node identifiers used by the above.

Each type has a mathematical model (its `View`); every operation's contract
states the new model and result exactly, and the laws are proof functions
over those models. For the types with an internal invariant,
`lemma_wf_inv` shows that every well-formed value's model satisfies the
model invariant that the laws assume, so the laws apply to real values.
