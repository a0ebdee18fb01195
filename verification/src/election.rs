//! Raft-style leader election: terms, self-votes, vote counting against a
//! strict majority, and the rule by which a node grants its vote.
use vstd::prelude::*;
use crate::entry::{Vote, VoteView};
use crate::peer_map::PeerMap;
use crate::quorum::{majority_of, supporters};
use crate::state::{ConsensusState, ConsensusView};

verus! {

broadcast use vstd::string::to_string_from_display_ensures_for_str;

/// Mathematical model of a [`RaftLeaderElection`].
pub struct ElectionView {
    pub node_id: Seq<char>,
    pub election_timeout_ms: u64,
    /// Peers in the cluster, each with its latest known term.
    pub peers: Map<Seq<char>, u64>,
    /// Votes received in the current election: voter to candidate.
    pub votes: Map<Seq<char>, Seq<char>>,
}

/// An operation on an election manager, as the methods of
/// [`RaftLeaderElection`] perform it (`StartElection` with the
/// participant's state it is given).
pub enum ElectionOp {
    AddPeer(Seq<char>),
    StartElection(ConsensusView),
    ReceiveVote(VoteView),
    Reset,
}

/// The identifiers given to `AddPeer` among `ops`.
pub open spec fn added_peers(ops: Seq<ElectionOp>) -> Set<Seq<char>>
    decreases ops.len(),
{
    if ops.len() == 0 {
        Set::empty()
    } else {
        let rest = added_peers(ops.drop_first());
        match ops[0] {
            ElectionOp::AddPeer(peer_id) => rest.insert(peer_id),
            _ => rest,
        }
    }
}

/// Whether a log whose last entry has term `term_a` and index `index_a` is
/// at least as up-to-date as one whose last entry has `term_b`, `index_b`:
/// a later last term wins, and with equal last terms the longer log wins.
pub open spec fn log_at_least_as_up_to_date(term_a: u64, index_a: nat, term_b: u64, index_b: nat) -> bool {
    term_a > term_b || (term_a == term_b && index_a >= index_b)
}

/// Whether a node in state `s` grants its vote to a candidate of term
/// `candidate_term` whose last log entry has the given index and term:
/// the candidate's term is not behind, this node has not voted in its
/// current term, and the candidate's log is at least as up-to-date.
pub open spec fn grants_vote(
    s: ConsensusView,
    candidate_term: u64,
    candidate_last_log_index: usize,
    candidate_last_log_term: u64,
) -> bool {
    &&& candidate_term >= s.current_term
    &&& s.voted_for is None
    &&& log_at_least_as_up_to_date(
        candidate_last_log_term,
        candidate_last_log_index as nat,
        s.last_log_term(),
        s.last_log_index(),
    )
}

impl ElectionView {
    /// Every recorded vote is a vote for this node, and the maps are finite.
    pub open spec fn inv(self) -> bool {
        &&& self.peers.dom().finite()
        &&& self.votes.dom().finite()
        &&& forall|voter: Seq<char>| #[trigger]
            self.votes.contains_key(voter) ==> self.votes[voter] == self.node_id
    }

    /// The number of peers (excluding this node).
    pub open spec fn peer_count(self) -> nat {
        self.peers.len()
    }

    /// The number of nodes in the cluster: this node and its peers.
    pub open spec fn cluster_size(self) -> nat {
        self.peers.len() + 1
    }

    /// The state after `add_peer(peer_id)`.
    pub open spec fn add_peer(self, peer_id: Seq<char>) -> ElectionView {
        ElectionView { peers: self.peers.insert(peer_id, 0), ..self }
    }

    /// The election state, the participant's state and the vote request after
    /// `start_election`: the participant moves to the next term and votes for
    /// this node, which becomes the only vote recorded.
    pub open spec fn start_election(self, s: ConsensusView) -> (ElectionView, ConsensusView, VoteView) {
        let next = s.advance_term((s.current_term + 1) as u64).cast_vote(self.node_id).0;
        (
            ElectionView {
                votes: Map::<Seq<char>, Seq<char>>::empty().insert(self.node_id, self.node_id),
                ..self
            },
            next,
            VoteView { voter_id: self.node_id, candidate_id: self.node_id, term: next.current_term },
        )
    }

    /// The state after `receive_vote(vote)` and whether this node has won:
    /// a vote for this node is recorded under its voter (a voter counts
    /// once), other votes are ignored, and the node has won once the recorded
    /// voters form a strict majority of the cluster.
    pub open spec fn receive_vote(self, vote: VoteView) -> (ElectionView, bool) {
        let votes = if vote.candidate_id == self.node_id {
            self.votes.insert(vote.voter_id, vote.candidate_id)
        } else {
            self.votes
        };
        (ElectionView { votes, ..self }, votes.len() >= majority_of(self.cluster_size() as int))
    }

    /// The state after `reset`: no votes recorded.
    pub open spec fn reset(self) -> ElectionView {
        ElectionView { votes: Map::empty(), ..self }
    }

    /// The state after one operation.
    pub open spec fn step(self, op: ElectionOp) -> ElectionView {
        match op {
            ElectionOp::AddPeer(peer_id) => self.add_peer(peer_id),
            ElectionOp::StartElection(s) => self.start_election(s).0,
            ElectionOp::ReceiveVote(vote) => self.receive_vote(vote).0,
            ElectionOp::Reset => self.reset(),
        }
    }

    /// The state after the operations `ops`, in order.
    pub open spec fn run(self, ops: Seq<ElectionOp>) -> ElectionView
        decreases ops.len(),
    {
        if ops.len() == 0 {
            self
        } else {
            self.step(ops[0]).run(ops.drop_first())
        }
    }
}

/// Raft-style leader election via timeouts.
///
/// A node that does not hear from a leader starts an election: it moves to
/// the next term, votes for itself and collects votes until a strict
/// majority of the cluster has voted for it.
#[derive(Debug)]
pub struct RaftLeaderElection {
    node_id: String,
    election_timeout_ms: u64,
    peers: PeerMap<u64>,
    votes_received: PeerMap<String>,
}

impl View for RaftLeaderElection {
    type V = ElectionView;

    closed spec fn view(&self) -> ElectionView {
        ElectionView {
            node_id: self.node_id@,
            election_timeout_ms: self.election_timeout_ms,
            peers: self.peers@,
            votes: self.votes_received@,
        }
    }
}

impl RaftLeaderElection {
    /// The internal maps are well formed and the model's invariant holds.
    pub closed spec fn wf(&self) -> bool {
        &&& self.peers.wf()
        &&& self.votes_received.wf()
        &&& self@.inv()
    }

    /// A well-formed election manager's model satisfies the model invariant,
    /// so the laws stated over models apply to it.
    pub proof fn lemma_wf_inv(&self)
        requires
            self.wf(),
        ensures
            self@.inv(),
    {
    }

    /// A new election manager for `node_id` with no peers and no votes.
    pub fn new(node_id: &str, election_timeout_ms: u64) -> (e: RaftLeaderElection)
        ensures
            e.wf(),
            e@ == (ElectionView {
                node_id: node_id@,
                election_timeout_ms,
                peers: Map::empty(),
                votes: Map::empty(),
            }),
    {
        RaftLeaderElection {
            node_id: node_id.to_string(),
            election_timeout_ms,
            peers: PeerMap::new(),
            votes_received: PeerMap::new(),
        }
    }

    /// Add a peer to the cluster (adding a known peer changes nothing).
    pub fn add_peer(&mut self, peer_id: &str)
        requires
            old(self).wf(),
        ensures
            final(self).wf(),
            final(self)@ == old(self)@.add_peer(peer_id@),
    {
        self.peers.insert(peer_id.to_string(), 0);
        proof {
            self.peers.lemma_wf_finite();
        }
    }

    /// The number of peers (excluding this node).
    pub fn peer_count(&self) -> (r: usize)
        requires
            self.wf(),
        ensures
            r == self@.peer_count(),
    {
        self.peers.len()
    }

    /// The cluster size (this node and its peers).
    pub fn cluster_size(&self) -> (r: usize)
        requires
            self.wf(),
            self@.peer_count() < usize::MAX,
        ensures
            r == self@.cluster_size(),
    {
        self.peers.len() + 1
    }

    /// The election timeout in milliseconds.
    pub fn election_timeout(&self) -> (r: u64)
        ensures
            r == self@.election_timeout_ms,
    {
        self.election_timeout_ms
    }

    /// Start a new election: advance `state` to the next term, vote for this
    /// node, and restart the vote count with this node's own vote.
    /// Returns the vote request to send to peers.
    pub fn start_election(&mut self, state: &mut ConsensusState) -> (v: Vote)
        requires
            old(self).wf(),
            old(state).current_term < u64::MAX,
        ensures
            final(self).wf(),
            (final(self)@, final(state)@, v@) == old(self)@.start_election(old(state)@),
            final(state).log == old(state).log,
    {
        state.advance_term(state.current_term + 1);
        state.cast_vote(self.node_id.as_str());
        self.votes_received.clear();
        self.votes_received.insert(self.node_id.clone(), self.node_id.clone());
        proof {
            self.votes_received.lemma_wf_finite();
        }
        Vote::new(self.node_id.as_str(), self.node_id.as_str(), state.current_term)
    }

    /// Receive a vote. A vote for this node is recorded (once per voter);
    /// other votes are ignored. Returns true if the recorded votes form a
    /// strict majority of the cluster.
    pub fn receive_vote(&mut self, vote: Vote) -> (won: bool)
        requires
            old(self).wf(),
            old(self)@.peer_count() < usize::MAX,
        ensures
            final(self).wf(),
            (final(self)@, won) == old(self)@.receive_vote(vote@),
    {
        if vote.candidate_id == self.node_id {
            self.votes_received.insert(vote.voter_id.clone(), vote.candidate_id);
            proof {
                self.votes_received.lemma_wf_finite();
            }
        }
        let needed = self.cluster_size() / 2 + 1;
        self.votes_received.len() >= needed
    }

    /// Forget every vote received (e.g. when a valid leader is heard from).
    pub fn reset(&mut self)
        requires
            old(self).wf(),
        ensures
            final(self).wf(),
            final(self)@ == old(self)@.reset(),
    {
        self.votes_received.clear();
    }

    /// Whether to grant a vote request: the candidate's term is at least the
    /// current term, this node has not voted yet, and the candidate's log is
    /// at least as up-to-date as this node's.
    pub fn should_grant_vote(
        &self,
        state: &ConsensusState,
        candidate_term: u64,
        candidate_last_log_index: usize,
        candidate_last_log_term: u64,
    ) -> (r: bool)
        ensures
            r == grants_vote(
                state@,
                candidate_term,
                candidate_last_log_index,
                candidate_last_log_term,
            ),
    {
        if candidate_term < state.current_term {
            return false;
        }
        if state.voted_for.is_some() {
            return false;
        }
        if candidate_last_log_term < state.last_log_term() {
            return false;
        }
        if candidate_last_log_term == state.last_log_term() && candidate_last_log_index
            < state.last_log_index() {
            return false;
        }
        true
    }
}

/// Every operation keeps the election model's invariant: only votes for
/// this node are ever recorded.
pub proof fn lemma_election_inv_preserved(
    e: ElectionView,
    s: ConsensusView,
    peer_id: Seq<char>,
    vote: VoteView,
)
    requires
        e.inv(),
    ensures
        e.add_peer(peer_id).inv(),
        e.start_election(s).0.inv(),
        e.receive_vote(vote).0.inv(),
        e.reset().inv(),
{
    assert(e.reset().votes.dom() =~= Set::<Seq<char>>::empty());
    let single = Map::<Seq<char>, Seq<char>>::empty().insert(e.node_id, e.node_id);
    assert(single.dom() =~= Set::<Seq<char>>::empty().insert(e.node_id));
}

/// The recorded voters are exactly the supporters of this node among the
/// recorded votes.
pub proof fn lemma_recorded_voters_support_node(e: ElectionView)
    requires
        e.inv(),
    ensures
        supporters(e.votes, e.node_id) == e.votes.dom(),
{
    assert(supporters(e.votes, e.node_id) =~= e.votes.dom());
}

/// Winning means support from a strict majority: when `receive_vote`
/// reports a win, the nodes recorded as voting for this node number at
/// least a strict majority of the cluster.
pub proof fn lemma_win_means_majority_support(e: ElectionView, vote: VoteView)
    requires
        e.inv(),
    ensures
        e.receive_vote(vote).1 ==> supporters(e.receive_vote(vote).0.votes, e.node_id).len()
            >= majority_of(e.cluster_size() as int),
{
    lemma_election_inv_preserved(e, arbitrary(), Seq::empty(), vote);
    lemma_recorded_voters_support_node(e.receive_vote(vote).0);
}

/// A voter counts once: receiving the same vote again changes neither the
/// recorded votes nor the outcome.
pub proof fn lemma_repeated_vote_counts_once(e: ElectionView, vote: VoteView)
    ensures
        e.receive_vote(vote).0.receive_vote(vote) == e.receive_vote(vote),
{
    let once = e.receive_vote(vote).0;
    if vote.candidate_id == e.node_id {
        assert(once.votes.insert(vote.voter_id, vote.candidate_id) =~= once.votes);
    }
}

/// Starting an election moves the participant to the next term, in which it
/// has voted for this node; this node's own vote is the only one recorded,
/// and the request carries the new term.
pub proof fn lemma_start_election_votes_for_self(e: ElectionView, s: ConsensusView)
    requires
        s.current_term < u64::MAX,
    ensures
        ({
            let (e2, s2, request) = e.start_election(s);
            &&& s2.current_term == s.current_term + 1
            &&& s2.voted_for == Some(e.node_id)
            &&& s2.log == s.log
            &&& e2.votes.dom() == Set::<Seq<char>>::empty().insert(e.node_id)
            &&& e2.votes.len() == 1
            &&& request.term == s2.current_term
            &&& request.voter_id == e.node_id
            &&& request.candidate_id == e.node_id
        }),
{
    let single = Map::<Seq<char>, Seq<char>>::empty().insert(e.node_id, e.node_id);
    assert(single.dom() =~= Set::<Seq<char>>::empty().insert(e.node_id));
}

/// After casting its vote in a term, a node grants no further vote in that
/// term, whatever the candidate.
pub proof fn lemma_no_second_grant_in_term(
    s: ConsensusView,
    candidate_id: Seq<char>,
    candidate_term: u64,
    candidate_last_log_index: usize,
    candidate_last_log_term: u64,
)
    ensures
        s.cast_vote(candidate_id).1 ==> !grants_vote(
            s.cast_vote(candidate_id).0,
            candidate_term,
            candidate_last_log_index,
            candidate_last_log_term,
        ),
{
}

/// A granted vote goes only to a candidate whose log is at least as
/// up-to-date as the voter's: its last term is higher, or equal with a log
/// at least as long.
pub proof fn lemma_grant_requires_up_to_date_log(
    s: ConsensusView,
    candidate_term: u64,
    candidate_last_log_index: usize,
    candidate_last_log_term: u64,
)
    ensures
        grants_vote(s, candidate_term, candidate_last_log_index, candidate_last_log_term) ==> {
            &&& candidate_last_log_term >= s.last_log_term()
            &&& candidate_last_log_term == s.last_log_term() ==> candidate_last_log_index
                >= s.last_log_index()
            &&& candidate_term >= s.current_term
        },
{
}

/// The peers are exactly the identifiers ever added: over any sequence of
/// operations, the peer set grows by the identifiers given to `add_peer`
/// (adding a known peer again changes nothing) and by nothing else.
pub proof fn lemma_peers_are_added_ids(e: ElectionView, ops: Seq<ElectionOp>)
    requires
        e.peers.dom().finite(),
    ensures
        added_peers(ops).finite(),
        e.run(ops).peers.dom() == e.peers.dom().union(added_peers(ops)),
        e.run(ops).peers.dom().finite(),
        e.run(ops).node_id == e.node_id,
        e.run(ops).election_timeout_ms == e.election_timeout_ms,
    decreases ops.len(),
{
    if ops.len() > 0 {
        let next = e.step(ops[0]);
        let rest = ops.drop_first();
        lemma_peers_are_added_ids(next, rest);
        match ops[0] {
            ElectionOp::AddPeer(peer_id) => {
                assert(next.peers.dom() =~= e.peers.dom().insert(peer_id));
                assert(e.peers.dom().union(added_peers(ops)) =~= next.peers.dom().union(
                    added_peers(rest),
                ));
            },
            _ => {
                assert(added_peers(ops) == added_peers(rest));
            },
        }
    } else {
        assert(e.peers.dom().union(added_peers(ops)) =~= e.peers.dom());
    }
}

/// Starting from a new manager, the peer count is the number of distinct
/// identifiers added so far, and the cluster has one node more.
pub proof fn lemma_peer_count_counts_distinct_ids(
    node_id: Seq<char>,
    election_timeout_ms: u64,
    ops: Seq<ElectionOp>,
)
    ensures
        ({
            let start = ElectionView {
                node_id,
                election_timeout_ms,
                peers: Map::empty(),
                votes: Map::empty(),
            };
            &&& start.run(ops).peers.dom() == added_peers(ops)
            &&& start.run(ops).peer_count() == added_peers(ops).len()
            &&& start.run(ops).cluster_size() == added_peers(ops).len() + 1
        }),
{
    let start = ElectionView {
        node_id,
        election_timeout_ms,
        peers: Map::empty(),
        votes: Map::empty(),
    };
    lemma_peers_are_added_ids(start, ops);
    assert(start.peers.dom().union(added_peers(ops)) =~= added_peers(ops));
}

/// The vote-granting rule, stated directly: a vote is granted exactly when
/// the candidate's term is at least the current term, this node has not
/// voted, and the candidate's last log term is higher than this node's, or
/// equal with a last log index at least as large.
pub proof fn lemma_grant_vote_exactly_when(
    s: ConsensusView,
    candidate_term: u64,
    candidate_last_log_index: usize,
    candidate_last_log_term: u64,
)
    ensures
        grants_vote(s, candidate_term, candidate_last_log_index, candidate_last_log_term) <==> {
            let my_term = if s.log.len() == 0 {
                0
            } else {
                s.log[s.log.len() - 1].term
            };
            &&& candidate_term >= s.current_term
            &&& s.voted_for is None
            &&& (candidate_last_log_term > my_term || (candidate_last_log_term == my_term
                && candidate_last_log_index >= s.log.len()))
        },
{
}

/// Counting votes, stated directly: a vote for this node is recorded under
/// its voter and any other vote changes nothing; the node has won exactly
/// when the recorded voters are more than half of the cluster (this node
/// and its peers).
pub proof fn lemma_receive_vote_counts_strict_majority(e: ElectionView, vote: VoteView)
    requires
        e.inv(),
    ensures
        ({
            let (e2, won) = e.receive_vote(vote);
            &&& vote.candidate_id == e.node_id ==> e2.votes.dom() == e.votes.dom().insert(
                vote.voter_id,
            )
            &&& vote.candidate_id != e.node_id ==> e2.votes == e.votes
            &&& won <==> 2 * e2.votes.len() > e.peers.len() + 1
            &&& e2.peers == e.peers
            &&& e2.node_id == e.node_id
        }),
{
    let (e2, won) = e.receive_vote(vote);
    if vote.candidate_id == e.node_id {
        assert(e2.votes.dom() =~= e.votes.dom().insert(vote.voter_id));
    }
}

/// Adding a peer makes it known, with term 0, and changes no other peer
/// and no vote; resetting forgets every vote and keeps the peers.
pub proof fn lemma_add_peer_and_reset(e: ElectionView, peer_id: Seq<char>, other: Seq<char>)
    ensures
        e.add_peer(peer_id).peers.dom() == e.peers.dom().insert(peer_id),
        e.add_peer(peer_id).peers[peer_id] == 0,
        other != peer_id && e.peers.contains_key(other) ==> e.add_peer(peer_id).peers[other]
            == e.peers[other],
        e.add_peer(peer_id).votes == e.votes,
        e.reset().votes.dom().len() == 0,
        e.reset().peers == e.peers,
{
    assert(e.add_peer(peer_id).peers.dom() =~= e.peers.dom().insert(peer_id));
    assert(e.reset().votes.dom() =~= Set::<Seq<char>>::empty());
}

} // verus!

