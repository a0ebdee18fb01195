//! Votes and log entries, the two records that nodes exchange.
use vstd::prelude::*;

verus! {

broadcast use vstd::string::to_string_from_display_ensures_for_str;

/// Mathematical model of a [`Vote`].
pub struct VoteView {
    pub voter_id: Seq<char>,
    pub candidate_id: Seq<char>,
    pub term: u64,
}

/// A single vote cast during a leader election round.
///
/// Each vote records which agent cast it, who they voted for, and the term
/// number of the election. In Raft, each node may vote at most once per term.
#[derive(Debug, Clone, PartialEq)]
pub struct Vote {
    /// The ID of the agent casting this vote.
    pub voter_id: String,
    /// The candidate ID being voted for.
    pub candidate_id: String,
    /// The term (election round) this vote belongs to.
    pub term: u64,
}

impl View for Vote {
    type V = VoteView;

    open spec fn view(&self) -> VoteView {
        VoteView { voter_id: self.voter_id@, candidate_id: self.candidate_id@, term: self.term }
    }
}

impl Vote {
    /// Create a new vote of `voter_id` for `candidate_id` in `term`.
    pub fn new(voter_id: &str, candidate_id: &str, term: u64) -> (v: Vote)
        ensures
            v@ == (VoteView { voter_id: voter_id@, candidate_id: candidate_id@, term }),
    {
        Vote { voter_id: voter_id.to_string(), candidate_id: candidate_id.to_string(), term }
    }
}

/// Mathematical model of a [`LogEntry`].
pub struct EntryView {
    pub term: u64,
    pub data: Seq<u8>,
    pub index: usize,
}

/// A single log entry in the replicated log.
#[derive(Debug, Clone, PartialEq)]
pub struct LogEntry {
    /// The term in which this entry was created.
    pub term: u64,
    /// The command or data payload.
    pub data: Vec<u8>,
    /// Monotonic index of this entry in the log.
    pub index: usize,
}

impl View for LogEntry {
    type V = EntryView;

    open spec fn view(&self) -> EntryView {
        EntryView { term: self.term, data: self.data@, index: self.index }
    }
}

/// The models of a sequence of log entries.
pub open spec fn entries_view(s: Seq<LogEntry>) -> Seq<EntryView> {
    s.map_values(|e: LogEntry| e@)
}

impl LogEntry {
    /// Create a new log entry.
    pub fn new(term: u64, data: Vec<u8>, index: usize) -> (e: LogEntry)
        ensures
            e.term == term,
            e.data == data,
            e.index == index,
    {
        LogEntry { term, data, index }
    }

    /// A fresh entry with the same term, payload and index.
    pub(crate) fn duplicate(&self) -> (e: LogEntry)
        ensures
            e@ == self@,
    {
        let data = self.data.clone();
        proof {
            assert(data@ =~= self.data@);
        }
        LogEntry { term: self.term, data, index: self.index }
    }
}

} // verus!
