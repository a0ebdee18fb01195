//! The persistent state of a consensus participant: its term, its vote in
//! that term, and its log.
use vstd::prelude::*;
use crate::entry::{entries_view, EntryView, LogEntry};

verus! {

broadcast use vstd::string::to_string_from_display_ensures_for_str;

/// The term of the last entry of a log, 0 for an empty log.
pub open spec fn last_term_of(log: Seq<EntryView>) -> u64 {
    if log.len() == 0 {
        0
    } else {
        log.last().term
    }
}

/// An operation on a participant's state, as the methods of
/// [`ConsensusState`] perform it.
pub enum StateOp {
    AdvanceTerm(u64),
    CastVote(Seq<char>),
    AppendEntry(EntryView),
    TruncateAndAppend(usize, Seq<EntryView>),
}

/// Whether `op` leaves the term at most `term` (only a higher
/// `AdvanceTerm` moves to a new term).
pub open spec fn stays_within_term(op: StateOp, term: u64) -> bool {
    match op {
        StateOp::AdvanceTerm(t) => t <= term,
        _ => true,
    }
}

/// The candidate of the first vote request among `ops`, if there is one.
pub open spec fn first_candidate(ops: Seq<StateOp>) -> Option<Seq<char>>
    decreases ops.len(),
{
    if ops.len() == 0 {
        None
    } else {
        match ops[0] {
            StateOp::CastVote(candidate_id) => Some(candidate_id),
            _ => first_candidate(ops.drop_first()),
        }
    }
}

/// Mathematical model of a [`ConsensusState`].
pub struct ConsensusView {
    pub node_id: Seq<char>,
    pub current_term: u64,
    pub voted_for: Option<Seq<char>>,
    pub log: Seq<EntryView>,
}

impl ConsensusView {
    /// The state after `advance_term(term)`: a higher term is adopted and
    /// forgets the vote; any other term changes nothing.
    pub open spec fn advance_term(self, term: u64) -> ConsensusView {
        if term > self.current_term {
            ConsensusView { current_term: term, voted_for: None, ..self }
        } else {
            self
        }
    }

    /// The state after `cast_vote(candidate_id)` and whether the vote was cast:
    /// a node votes only while it has not voted in the current term.
    pub open spec fn cast_vote(self, candidate_id: Seq<char>) -> (ConsensusView, bool) {
        if self.voted_for is None {
            (ConsensusView { voted_for: Some(candidate_id), ..self }, true)
        } else {
            (self, false)
        }
    }

    /// The state after `append_entry(entry)`.
    pub open spec fn append_entry(self, entry: EntryView) -> ConsensusView {
        ConsensusView { log: self.log.push(entry), ..self }
    }

    /// The state after one operation, and whether it was a granted vote.
    pub open spec fn step(self, op: StateOp) -> (ConsensusView, bool) {
        match op {
            StateOp::AdvanceTerm(term) => (self.advance_term(term), false),
            StateOp::CastVote(candidate_id) => self.cast_vote(candidate_id),
            StateOp::AppendEntry(entry) => (self.append_entry(entry), false),
            StateOp::TruncateAndAppend(from_index, entries) => (
                self.truncate_and_append(from_index, entries),
                false,
            ),
        }
    }

    /// The state after the operations `ops`, in order.
    pub open spec fn run(self, ops: Seq<StateOp>) -> ConsensusView
        decreases ops.len(),
    {
        if ops.len() == 0 {
            self
        } else {
            self.step(ops[0]).0.run(ops.drop_first())
        }
    }

    /// How many of the operations `ops`, run in order, are granted votes.
    pub open spec fn granted_votes(self, ops: Seq<StateOp>) -> nat
        decreases ops.len(),
    {
        if ops.len() == 0 {
            0
        } else {
            let (next, granted) = self.step(ops[0]);
            (if granted {
                1nat
            } else {
                0nat
            }) + next.granted_votes(ops.drop_first())
        }
    }

    /// The index of the last log entry (the log's length).
    pub open spec fn last_log_index(self) -> nat {
        self.log.len()
    }

    /// The term of the last log entry, 0 when the log is empty.
    pub open spec fn last_log_term(self) -> u64 {
        last_term_of(self.log)
    }

    /// The state after `truncate_and_append(from_index, entries)`: the log
    /// keeps its first `from_index` entries (all of them when it is shorter)
    /// and `entries` follow.
    pub open spec fn truncate_and_append(self, from_index: usize, entries: Seq<EntryView>) -> ConsensusView {
        let keep = if from_index < self.log.len() { from_index as int } else { self.log.len() as int };
        ConsensusView { log: self.log.take(keep) + entries, ..self }
    }
}

/// The persistent state of a consensus participant.
///
/// Tracks the current term, who this node voted for in the current term,
/// and the complete log of entries.
#[derive(Debug, Clone)]
pub struct ConsensusState {
    /// The node's own identifier.
    pub node_id: String,
    /// Current term number (monotonically increasing).
    pub current_term: u64,
    /// Who this node voted for in the current term (None = no vote yet).
    pub voted_for: Option<String>,
    /// The replicated log entries.
    pub log: Vec<LogEntry>,
}

/// The model of an optional identifier.
pub open spec fn opt_id_view(o: Option<String>) -> Option<Seq<char>> {
    match o {
        Some(s) => Some(s@),
        None => None,
    }
}

impl View for ConsensusState {
    type V = ConsensusView;

    open spec fn view(&self) -> ConsensusView {
        ConsensusView {
            node_id: self.node_id@,
            current_term: self.current_term,
            voted_for: opt_id_view(self.voted_for),
            log: entries_view(self.log@),
        }
    }
}

impl ConsensusState {
    /// A fresh state for `node_id`: term 0, no vote, empty log.
    pub fn new(node_id: &str) -> (s: ConsensusState)
        ensures
            s@ == (ConsensusView {
                node_id: node_id@,
                current_term: 0,
                voted_for: None,
                log: Seq::empty(),
            }),
    {
        let s = ConsensusState {
            node_id: node_id.to_string(),
            current_term: 0,
            voted_for: None,
            log: Vec::new(),
        };
        assert(s@.log =~= Seq::<EntryView>::empty());
        s
    }

    /// Advance to `term` if it is higher than the current term, forgetting
    /// the vote of the earlier term; otherwise change nothing.
    pub fn advance_term(&mut self, term: u64)
        ensures
            final(self)@ == old(self)@.advance_term(term),
            final(self).log == old(self).log,
    {
        if term > self.current_term {
            self.current_term = term;
            self.voted_for = None;
        }
    }

    /// Cast a vote for `candidate_id` in the current term. Returns false,
    /// changing nothing, if this node already voted.
    pub fn cast_vote(&mut self, candidate_id: &str) -> (granted: bool)
        ensures
            (final(self)@, granted) == old(self)@.cast_vote(candidate_id@),
            final(self).log == old(self).log,
    {
        if self.voted_for.is_some() {
            return false;
        }
        self.voted_for = Some(candidate_id.to_string());
        true
    }

    /// The index of the last log entry (0 if empty).
    pub fn last_log_index(&self) -> (r: usize)
        ensures
            r == self@.last_log_index(),
    {
        self.log.len()
    }

    /// The term of the last log entry (0 if empty).
    pub fn last_log_term(&self) -> (r: u64)
        ensures
            r == self@.last_log_term(),
    {
        let n = self.log.len();
        if n == 0 {
            0
        } else {
            self.log[n - 1].term
        }
    }

    /// Append an entry to the log.
    pub fn append_entry(&mut self, entry: LogEntry)
        ensures
            final(self).log@ == old(self).log@.push(entry),
            final(self)@ == old(self)@.append_entry(entry@),
    {
        self.log.push(entry);
        assert(self@.log =~= old(self)@.log.push(entry@));
    }

    /// Truncate the log from `from_index` onward and append `entries`.
    /// Used when a leader overwrites conflicting entries.
    pub fn truncate_and_append(&mut self, from_index: usize, entries: Vec<LogEntry>)
        ensures
            final(self).log@ == old(self).log@.take(
                if from_index < old(self).log@.len() {
                    from_index as int
                } else {
                    old(self).log@.len() as int
                },
            ) + entries@,
            final(self)@ == old(self)@.truncate_and_append(from_index, entries_view(entries@)),
    {
        let ghost incoming = entries@;
        let mut rest = entries;
        self.log.truncate(from_index);
        self.log.append(&mut rest);
        let ghost keep = if from_index < old(self).log@.len() {
            from_index as int
        } else {
            old(self).log@.len() as int
        };
        assert(self.log@ =~= old(self).log@.take(keep) + incoming);
        assert(self@.log =~= old(self)@.log.take(keep) + entries_view(incoming));
    }
}

/// The current term never decreases: advancing to `term` leaves the larger
/// of the current term and `term`, and the log and identity are untouched.
pub proof fn lemma_term_never_decreases(s: ConsensusView, term: u64)
    ensures
        s.advance_term(term).current_term >= s.current_term,
        s.advance_term(term).current_term >= term,
        s.advance_term(term).current_term == s.current_term || s.advance_term(term).current_term
            == term,
        s.advance_term(term).log == s.log,
        s.advance_term(term).node_id == s.node_id,
{
}

/// A node votes at most once per term: after a vote is cast, a second
/// request in the same term is refused and the first vote stays.
pub proof fn lemma_vote_at_most_once_per_term(s: ConsensusView, first: Seq<char>, second: Seq<char>)
    ensures
        ({
            let (after_first, granted_first) = s.cast_vote(first);
            let (after_second, granted_second) = after_first.cast_vote(second);
            granted_first ==> {
                &&& !granted_second
                &&& after_second == after_first
                &&& after_second.voted_for == Some(first)
            }
        }),
{
}

/// A vote is forgotten only by moving to a strictly higher term: advancing
/// to a term that is not higher changes nothing, not even the vote.
pub proof fn lemma_vote_kept_within_term(s: ConsensusView, term: u64)
    ensures
        term <= s.current_term ==> s.advance_term(term) == s,
        term > s.current_term ==> s.advance_term(term).voted_for is None,
{
}

/// Truncating at or beyond the end of the log removes nothing: the new
/// entries are appended to the whole log.
pub proof fn lemma_truncate_past_end_appends(s: ConsensusView, from_index: usize, entries: Seq<EntryView>)
    requires
        from_index >= s.log.len(),
    ensures
        s.truncate_and_append(from_index, entries).log == s.log + entries,
{
    assert(s.log.take(s.log.len() as int) =~= s.log);
}

/// A node votes at most once per term, over any sequence of operations
/// that stays in the current term: a node that has already voted grants no
/// vote and keeps its vote; a node that has not voted grants exactly the
/// first vote request and then keeps that vote. The term does not change.
pub proof fn lemma_one_vote_per_term(s: ConsensusView, ops: Seq<StateOp>)
    requires
        forall|i: int| 0 <= i < ops.len() ==> #[trigger] stays_within_term(ops[i], s.current_term),
    ensures
        s.run(ops).current_term == s.current_term,
        s.run(ops).voted_for == if s.voted_for is Some {
            s.voted_for
        } else {
            first_candidate(ops)
        },
        s.granted_votes(ops) == if s.voted_for is None && first_candidate(ops) is Some {
            1nat
        } else {
            0nat
        },
        s.granted_votes(ops) <= 1,
    decreases ops.len(),
{
    if ops.len() > 0 {
        let next = s.step(ops[0]).0;
        let rest = ops.drop_first();
        assert(stays_within_term(ops[0], s.current_term));
        assert forall|i: int| 0 <= i < rest.len() implies #[trigger] stays_within_term(
            rest[i],
            next.current_term,
        ) by {
            assert(rest[i] == ops[i + 1]);
            assert(stays_within_term(ops[i + 1], s.current_term));
        }
        lemma_one_vote_per_term(next, rest);
    }
}

/// Casting a vote, stated directly: the vote is granted exactly when the
/// node has not voted in the current term, and then the node has voted for
/// that candidate; a refused request changes nothing. The term and the log
/// never change.
pub proof fn lemma_cast_vote_grants_exactly_when_free(s: ConsensusView, candidate_id: Seq<char>)
    ensures
        s.cast_vote(candidate_id).1 <==> s.voted_for is None,
        s.cast_vote(candidate_id).1 ==> s.cast_vote(candidate_id).0.voted_for == Some(
            candidate_id,
        ),
        !s.cast_vote(candidate_id).1 ==> s.cast_vote(candidate_id).0 == s,
        s.cast_vote(candidate_id).0.current_term == s.current_term,
        s.cast_vote(candidate_id).0.log == s.log,
{
}

/// Advancing the term, stated directly: the new term is the larger of the
/// two, and the vote is cleared exactly when the term moves.
pub proof fn lemma_advance_term_takes_maximum(s: ConsensusView, term: u64)
    ensures
        s.advance_term(term).current_term == if term > s.current_term {
            term
        } else {
            s.current_term
        },
        s.advance_term(term).voted_for == if term > s.current_term {
            None
        } else {
            s.voted_for
        },
        s.advance_term(term).log == s.log,
{
}

/// Truncating inside the log keeps exactly its first `from_index` entries
/// and puts `entries` after them; the last index and term then come from
/// the appended entries when there are any.
pub proof fn lemma_truncate_and_append_inside_log(s: ConsensusView, from_index: usize, entries: Seq<EntryView>)
    requires
        from_index < s.log.len(),
    ensures
        ({
            let s2 = s.truncate_and_append(from_index, entries);
            &&& s2.log.len() == from_index + entries.len()
            &&& forall|i: int| 0 <= i < from_index ==> #[trigger] s2.log[i] == s.log[i]
            &&& forall|i: int| 0 <= i < entries.len() ==> #[trigger] s2.log[from_index + i] == entries[i]
            &&& entries.len() > 0 ==> s2.last_log_term() == entries.last().term
            &&& s2.last_log_index() == from_index + entries.len()
            &&& s2.current_term == s.current_term
            &&& s2.voted_for == s.voted_for
        }),
{
}

} // verus!
