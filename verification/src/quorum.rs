//! Majorities of a cluster, and why two of them always share a node.
use vstd::prelude::*;
use vstd::set_lib::{lemma_len_subset, lemma_set_intersect_union_lens};

verus! {

/// The smallest number of nodes that forms a strict majority of a cluster
/// of `cluster_size` nodes.
pub open spec fn majority_of(cluster_size: int) -> int {
    cluster_size / 2 + 1
}

/// The nodes that, in `ballots` (each voter's single vote in one term),
/// voted for `candidate`.
pub open spec fn supporters(ballots: Map<Seq<char>, Seq<char>>, candidate: Seq<char>) -> Set<
    Seq<char>,
> {
    ballots.dom().filter(|voter: Seq<char>| ballots[voter] == candidate)
}

/// A majority is strict: it is more than half of the cluster, and never
/// more than the whole cluster once the cluster has a member.
pub proof fn lemma_majority_is_strict(cluster_size: int)
    requires
        cluster_size >= 0,
    ensures
        2 * majority_of(cluster_size) > cluster_size,
        cluster_size >= 1 ==> majority_of(cluster_size) <= cluster_size,
{
}

/// Two majorities of one cluster share at least one node.
pub proof fn lemma_majorities_intersect<A>(cluster: Set<A>, a: Set<A>, b: Set<A>)
    requires
        cluster.finite(),
        a.subset_of(cluster),
        b.subset_of(cluster),
        a.len() >= majority_of(cluster.len() as int),
        b.len() >= majority_of(cluster.len() as int),
    ensures
        exists|x: A| a.contains(x) && b.contains(x),
{
    broadcast use vstd::set::group_set_axioms;

    lemma_len_subset(a, cluster);
    lemma_len_subset(b, cluster);
    lemma_len_subset(a + b, cluster);
    lemma_set_intersect_union_lens(a, b);
    let both = a.intersect(b);
    assert(both.len() != 0);
    lemma_len_subset(both, cluster);
    assert(both.contains(both.choose()));
}

/// Election safety: within one term every node casts at most one vote, so
/// the term's ballots form a map from voter to candidate. If two candidates
/// each gathered the votes of a majority of the cluster, they are the same
/// candidate: at most one leader is elected per term.
pub proof fn lemma_one_leader_per_term(
    cluster: Set<Seq<char>>,
    ballots: Map<Seq<char>, Seq<char>>,
    first: Seq<char>,
    second: Seq<char>,
)
    requires
        cluster.finite(),
        ballots.dom().subset_of(cluster),
        supporters(ballots, first).len() >= majority_of(cluster.len() as int),
        supporters(ballots, second).len() >= majority_of(cluster.len() as int),
    ensures
        first == second,
{
    lemma_majorities_intersect(cluster, supporters(ballots, first), supporters(ballots, second));
    let voter = choose|x: Seq<char>|
        supporters(ballots, first).contains(x) && supporters(ballots, second).contains(x);
    assert(ballots[voter] == first && ballots[voter] == second);
}

} // verus!
