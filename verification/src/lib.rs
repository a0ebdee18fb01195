//! Building blocks of Raft-style consensus: votes and log entries, the
//! persistent state of a participant, leader election, log replication and
//! commit tracking, each with its contract and the protocol's safety laws.
pub mod commit;
pub mod election;
pub mod entry;
mod peer_map;
pub mod quorum;
pub mod replication;
pub mod state;

pub use election::{ElectionView, RaftLeaderElection};
pub use replication::{LogReplication, ReplicationView};
pub use commit::{CommitIndex, CommitView};
pub use state::{ConsensusState, ConsensusView};
pub use entry::{EntryView, LogEntry, Vote, VoteView};
