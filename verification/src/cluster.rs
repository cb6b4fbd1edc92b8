//! Clusters of channels: one channel of a cluster is simulated and stands
//! for all of them.

use crate::network::sim::{Shown, SimNetwork};
use crate::routing::RoutingAlgo;
use std::collections::HashSet;
use vstd::prelude::*;

verus! {

broadcast use vstd::std_specs::hash::group_hash_axioms;

/// A cluster of channels, named by their indices, with a representative
/// member.
pub struct Cluster {
    pub representative: usize,
    pub members: HashSet<usize>,
}

impl Cluster {
    /// A cluster of the given members, of which `representative` should be
    /// one.
    pub fn new(representative: usize, members: HashSet<usize>) -> (r: Self)
        ensures
            r.representative == representative,
            r.members == members,
    {
        Cluster { representative, members }
    }

    /// The representative of the cluster.
    pub fn representative(&self) -> (r: usize)
        ensures
            r == self.representative,
    {
        self.representative
    }

    /// Returns true if the cluster contains the channel `eidx`.
    pub fn contains(&self, eidx: &usize) -> (r: bool)
        ensures
            r == self.members@.contains(*eidx),
    {
        self.members.contains(eidx)
    }

    /// The members of the cluster, each once, in no particular order.
    pub fn members(&self) -> (r: Vec<usize>)
        ensures
            r@.no_duplicates(),
            r@.to_set() == self.members@,
    {
        let mut out: Vec<usize> = Vec::new();
        for x in it: self.members.iter()
            invariant
                out@.len() == it.index(),
                forall|i: int| 0 <= i < out@.len() ==> out@[i] == *it.seq()[i],
                it.seq().unref().to_set() == self.members@,
                it.seq().no_duplicates(),
                it.index() == it.seq().len() ==> out@ == it.seq().unref(),
        {
            out.push(*x);
            assert(it.index() + 1 == it.seq().len() ==> out@ =~= it.seq().unref());
        }
        out
    }
}

impl Clone for Cluster {
    fn clone(&self) -> (r: Self)
        ensures
            r.representative == self.representative,
            r.members@ == self.members@,
    {
        let items = self.members();
        let mut members: HashSet<usize> = HashSet::new();
        let mut i: usize = 0;
        while i < items.len()
            invariant
                i <= items@.len(),
                members@ == items@.take(i as int).to_set(),
            decreases items@.len() - i,
        {
            members.insert(items[i]);
            proof {
                assert(items@.take(i + 1) =~= items@.take(i as int).push(items@[i as int]));
                crate::network::types::lemma_push_to_set(items@.take(i as int), items@[i as int]);
            }
            i += 1;
        }
        proof {
            assert(items@.take(i as int) =~= items@);
        }
        Cluster { representative: self.representative, members }
    }
}

/// Whether some cluster has the channel `e` as a member.
pub open spec fn covered(clusters: Seq<Cluster>, e: usize) -> bool {
    exists|c: int| 0 <= c < clusters.len() && #[trigger] clusters[c].members@.contains(e)
}

/// Whether the clusters part the channels `0` to `nr_edges - 1`: every
/// channel is a member of exactly one cluster, and the representative of a
/// cluster is one of its members.
pub open spec fn is_partition(clusters: Seq<Cluster>, nr_edges: nat) -> bool {
    &&& forall|c: int|
        0 <= c < clusters.len() ==> (#[trigger] clusters[c]).members@.contains(
            clusters[c].representative,
        )
    &&& forall|c: int, e: usize|
        0 <= c < clusters.len() && #[trigger] clusters[c].members@.contains(e) ==> e < nr_edges
    &&& forall|e: usize| e < nr_edges ==> #[trigger] covered(clusters, e)
    &&& forall|c: int, d: int, e: usize|
        0 <= c < clusters.len() && 0 <= d < clusters.len() && #[trigger] clusters[c].members@.contains(
            e,
        ) && #[trigger] clusters[d].members@.contains(e) ==> c == d
}

/// Whether the clusters are those of the identity clustering: the cluster at
/// position `e` holds the channel `e` and nothing else.
pub open spec fn is_identity(clusters: Seq<Cluster>, nr_edges: nat) -> bool {
    &&& clusters.len() == nr_edges
    &&& forall|e: int|
        0 <= e < clusters.len() ==> (#[trigger] clusters[e]).representative == e
            && clusters[e].members@ == set![e as usize]
}

/// The identity clustering parts the channels.
pub proof fn lemma_identity_is_partition(clusters: Seq<Cluster>, nr_edges: nat)
    requires
        is_identity(clusters, nr_edges),
        nr_edges <= usize::MAX,
    ensures
        is_partition(clusters, nr_edges),
{
    assert forall|e: usize| e < nr_edges implies #[trigger] covered(clusters, e) by {
        assert(clusters[e as int].members@.contains(e));
    }
}

/// The identity clustering of `nr_edges` channels.
pub fn identity_clusters(nr_edges: usize) -> (r: Vec<Cluster>)
    ensures
        is_identity(r@, nr_edges as nat),
{
    let mut clusters: Vec<Cluster> = Vec::new();
    let mut e: usize = 0;
    while e < nr_edges
        invariant
            e <= nr_edges,
            is_identity(clusters@, e as nat),
        decreases nr_edges - e,
    {
        let mut members: HashSet<usize> = HashSet::new();
        members.insert(e);
        assert(members@ =~= set![e]);
        clusters.push(Cluster::new(e, members));
        e += 1;
    }
    clusters
}

/// What every clustering algorithm offers: it parts the channels of a
/// network into clusters.
pub trait ClusteringAlgo {
    /// What the algorithm needs to hold of itself before it is run.
    spec fn ready(&self) -> bool;

    /// Whether the algorithm may give `clusters` for a network of which it
    /// is shown `network`: an algorithm says by this which clusters it
    /// makes.
    spec fn gives(&self, network: Shown, clusters: Seq<Cluster>) -> bool;

    /// Clusters the channels of `network`. Every channel becomes a member of
    /// exactly one cluster, and every cluster has one of its members as its
    /// representative.
    fn cluster<R: RoutingAlgo>(&self, network: &SimNetwork<R>) -> (r: Vec<Cluster>)
        requires
            self.ready(),
            network.wf(),
        ensures
            is_partition(r@, network.topology.channels@.len()),
            self.gives(network.shown(), r@),
    ;
}

/// Whether two lists of clusters hold the same clusters.
pub open spec fn same_clusters(one: Seq<Cluster>, other: Seq<Cluster>) -> bool {
    &&& one.len() == other.len()
    &&& forall|c: int|
        0 <= c < one.len() ==> (#[trigger] one[c]).representative == other[c].representative
            && one[c].members@ == other[c].members@
}

/// The same clusters part the same channels.
pub proof fn lemma_same_partition(one: Seq<Cluster>, other: Seq<Cluster>, nr_edges: nat)
    requires
        same_clusters(one, other),
        is_partition(one, nr_edges),
    ensures
        is_partition(other, nr_edges),
{
    assert forall|c: int| 0 <= c < other.len() implies (#[trigger] other[c]).members@.contains(
        other[c].representative,
    ) by {
        assert(one[c].members@.contains(one[c].representative));
    }
    assert forall|c: int, e: usize|
        0 <= c < other.len() && #[trigger] other[c].members@.contains(e) implies e < nr_edges by {
        assert(one[c].members@.contains(e));
    }
    assert forall|e: usize| e < nr_edges implies #[trigger] covered(other, e) by {
        assert(covered(one, e));
        let c = choose|c: int| 0 <= c < one.len() && #[trigger] one[c].members@.contains(e);
        assert(other[c].members@.contains(e));
    }
    assert forall|c: int, d: int, e: usize|
        0 <= c < other.len() && 0 <= d < other.len() && #[trigger] other[c].members@.contains(e)
            && #[trigger] other[d].members@.contains(e) implies c == d by {
        assert(one[c].members@.contains(e) && one[d].members@.contains(e));
    }
}

/// The clustering that leaves the clusters of a network as they are. A
/// network starts with every channel in a cluster of its own.
#[derive(Debug)]
pub struct DefaultClustering;

impl ClusteringAlgo for DefaultClustering {
    open spec fn ready(&self) -> bool {
        true
    }

    /// The clusters that the network has.
    open spec fn gives(&self, network: Shown, clusters: Seq<Cluster>) -> bool {
        same_clusters(network.clusters, clusters)
    }

    fn cluster<R: RoutingAlgo>(&self, network: &SimNetwork<R>) -> (r: Vec<Cluster>) {
        let mut out: Vec<Cluster> = Vec::new();
        let mut c: usize = 0;
        while c < network.clusters.len()
            invariant
                c <= network.clusters@.len(),
                same_clusters(network.clusters@.take(c as int), out@),
            decreases network.clusters@.len() - c,
        {
            out.push(network.clusters[c].clone());
            c += 1;
        }
        proof {
            assert(network.clusters@.take(c as int) =~= network.clusters@);
            lemma_same_partition(network.clusters@, out@, network.topology.channels@.len());
        }
        out
    }
}

} // verus!
