//! Commit tracking: which log indices are safely replicated on a majority,
//! and which of those have been applied to the state machine.
use vstd::prelude::*;
use crate::quorum::majority_of;

verus! {

/// An operation on a commit index, as the methods of [`CommitIndex`]
/// perform it.
pub enum CommitOp {
    AdvanceTo(usize, usize, usize),
    ApplyCommitted,
}

/// Mathematical model of a [`CommitIndex`].
pub struct CommitView {
    /// The highest committed log index.
    pub committed: usize,
    /// The highest log index applied to the state machine.
    pub last_applied: usize,
}

impl CommitView {
    /// Nothing is ever applied before it is committed.
    pub open spec fn inv(self) -> bool {
        self.last_applied <= self.committed
    }

    /// The state after `advance_to(index, cluster_size, replication_count)`,
    /// with the number of newly committed entries.
    pub open spec fn advance_to(self, index: usize, cluster_size: usize, replication_count: usize) -> (
        CommitView,
        usize,
    ) {
        if replication_count >= majority_of(cluster_size as int) && index > self.committed {
            (CommitView { committed: index, ..self }, (index - self.committed) as usize)
        } else {
            (self, 0)
        }
    }

    /// The state after one operation.
    pub open spec fn step(self, op: CommitOp) -> CommitView {
        match op {
            CommitOp::AdvanceTo(index, cluster_size, replication_count) => self.advance_to(
                index,
                cluster_size,
                replication_count,
            ).0,
            CommitOp::ApplyCommitted => self.apply_committed().0,
        }
    }

    /// The state after the operations `ops`, in order.
    pub open spec fn run(self, ops: Seq<CommitOp>) -> CommitView
        decreases ops.len(),
    {
        if ops.len() == 0 {
            self
        } else {
            self.step(ops[0]).run(ops.drop_first())
        }
    }

    /// The state after `apply_committed()`, with the number of newly applied entries.
    pub open spec fn apply_committed(self) -> (CommitView, usize) {
        if self.committed > self.last_applied {
            (
                CommitView { last_applied: self.committed, ..self },
                (self.committed - self.last_applied) as usize,
            )
        } else {
            (self, 0)
        }
    }
}

/// Tracks which log entries have been committed (safely replicated to a
/// majority) and which have been applied.
#[derive(Debug)]
pub struct CommitIndex {
    committed: usize,
    last_applied: usize,
}

impl View for CommitIndex {
    type V = CommitView;

    closed spec fn view(&self) -> CommitView {
        CommitView { committed: self.committed, last_applied: self.last_applied }
    }
}

impl CommitIndex {
    /// Create a new commit index tracker: nothing committed, nothing applied.
    pub fn new() -> (c: CommitIndex)
        ensures
            c@ == (CommitView { committed: 0, last_applied: 0 }),
            c@.inv(),
    {
        CommitIndex { committed: 0, last_applied: 0 }
    }

    /// The current committed index.
    pub fn committed(&self) -> (r: usize)
        ensures
            r == self@.committed,
    {
        self.committed
    }

    /// The last applied index.
    pub fn last_applied(&self) -> (r: usize)
        ensures
            r == self@.last_applied,
    {
        self.last_applied
    }

    /// Advance the commit index to `index` when a strict majority of the
    /// cluster has replicated it and it is beyond the current commit index.
    /// Returns the number of newly committed entries (0 when nothing moves).
    pub fn advance_to(&mut self, index: usize, cluster_size: usize, replication_count: usize) -> (r:
        usize)
        ensures
            (final(self)@, r) == old(self)@.advance_to(index, cluster_size, replication_count),
            old(self)@.inv() ==> final(self)@.inv(),
    {
        let majority = cluster_size / 2 + 1;
        if replication_count >= majority && index > self.committed {
            let newly = index - self.committed;
            self.committed = index;
            newly
        } else {
            0
        }
    }

    /// Apply every committed entry that has not been applied yet.
    /// Returns the number of newly applied entries.
    pub fn apply_committed(&mut self) -> (r: usize)
        ensures
            (final(self)@, r) == old(self)@.apply_committed(),
            old(self)@.inv() ==> final(self)@.inv(),
    {
        if self.committed > self.last_applied {
            let count = self.committed - self.last_applied;
            self.last_applied = self.committed;
            count
        } else {
            0
        }
    }

    /// Whether `index` has been committed.
    pub fn is_committed(&self, index: usize) -> (r: bool)
        ensures
            r == (index <= self@.committed),
    {
        index <= self.committed
    }

    /// Whether `index` has been applied.
    pub fn is_applied(&self, index: usize) -> (r: bool)
        ensures
            r == (index <= self@.last_applied),
    {
        index <= self.last_applied
    }
}

impl Default for CommitIndex {
    fn default() -> (c: CommitIndex)
        ensures
            c@ == (CommitView { committed: 0, last_applied: 0 }),
    {
        CommitIndex::new()
    }
}

/// Commitment is never lost and application never undone: the committed
/// index and the applied index never decrease, so an index once committed
/// (or applied) stays so.
pub proof fn lemma_commit_never_regresses(
    c: CommitView,
    index: usize,
    cluster_size: usize,
    replication_count: usize,
    i: usize,
)
    ensures
        c.advance_to(index, cluster_size, replication_count).0.committed >= c.committed,
        c.advance_to(index, cluster_size, replication_count).0.last_applied == c.last_applied,
        c.apply_committed().0.committed == c.committed,
        c.apply_committed().0.last_applied >= c.last_applied,
        i <= c.committed ==> i <= c.advance_to(index, cluster_size, replication_count).0.committed,
        i <= c.last_applied ==> i <= c.apply_committed().0.last_applied,
{
}

/// The commit index moves only when a strict majority of the cluster has
/// replicated the new index, and then by exactly the reported count.
pub proof fn lemma_commit_requires_majority(
    c: CommitView,
    index: usize,
    cluster_size: usize,
    replication_count: usize,
)
    ensures
        ({
            let (c2, newly) = c.advance_to(index, cluster_size, replication_count);
            c2.committed != c.committed ==> {
                &&& replication_count >= majority_of(cluster_size as int)
                &&& c2.committed == index
                &&& newly == index - c.committed
                &&& newly > 0
            }
        }),
{
}

/// Only committed entries are ever applied: every operation keeps the
/// applied index at or below the committed index, and applying catches up
/// exactly to the committed index.
pub proof fn lemma_apply_only_committed(
    c: CommitView,
    index: usize,
    cluster_size: usize,
    replication_count: usize,
)
    requires
        c.inv(),
    ensures
        c.advance_to(index, cluster_size, replication_count).0.inv(),
        c.apply_committed().0.inv(),
        c.apply_committed().0.last_applied == c.committed,
        c.apply_committed().1 == c.committed - c.last_applied,
{
}

/// Over any sequence of operations from a new (or default) commit index,
/// nothing is applied before it is committed: every index that is applied
/// is committed.
pub proof fn lemma_applied_always_committed(ops: Seq<CommitOp>)
    ensures
        ({
            let c = (CommitView { committed: 0, last_applied: 0 }).run(ops);
            &&& c.inv()
            &&& c.last_applied <= c.committed
        }),
{
    lemma_run_keeps_inv(CommitView { committed: 0, last_applied: 0 }, ops);
}

/// Any sequence of operations keeps the invariant.
pub proof fn lemma_run_keeps_inv(c: CommitView, ops: Seq<CommitOp>)
    requires
        c.inv(),
    ensures
        c.run(ops).inv(),
    decreases ops.len(),
{
    if ops.len() > 0 {
        lemma_run_keeps_inv(c.step(ops[0]), ops.drop_first());
    }
}

/// Advancing the commit index, stated directly: when more than half of the
/// cluster has replicated an index beyond the committed one, the committed
/// index becomes that index and the number of newly committed entries is
/// the difference; in every other case nothing changes and 0 is returned.
pub proof fn lemma_advance_commits_with_strict_majority(
    c: CommitView,
    index: usize,
    cluster_size: usize,
    replication_count: usize,
)
    ensures
        ({
            let (c2, newly) = c.advance_to(index, cluster_size, replication_count);
            let majority = 2 * replication_count > cluster_size;
            &&& (replication_count >= cluster_size / 2 + 1) == majority
            &&& (majority && index > c.committed) ==> {
                &&& c2.committed == index
                &&& newly == index - c.committed
                &&& c2.last_applied == c.last_applied
            }
            &&& !(majority && index > c.committed) ==> c2 == c && newly == 0
        }),
{
}

/// Applying committed entries, stated directly: when the committed index is
/// ahead, the applied index catches up to it and the gap is returned;
/// otherwise nothing changes and 0 is returned.
pub proof fn lemma_apply_committed_catches_up(c: CommitView)
    ensures
        c.committed > c.last_applied ==> c.apply_committed().0.last_applied == c.committed
            && c.apply_committed().1 == c.committed - c.last_applied
            && c.apply_committed().0.committed == c.committed,
        c.committed <= c.last_applied ==> c.apply_committed().0 == c && c.apply_committed().1
            == 0,
{
}

} // verus!
