//! Clustering by likeness: quantiles of flow sizes and of the times between
//! flows as features of a channel, and a greedy clustering over any
//! feature.

use crate::cluster::{covered, is_partition, Cluster, ClusteringAlgo};
use crate::network::sim::{Shown, SimNetwork};
use crate::network::types::{sorted_by_start, Flow, FlowChannel};
use crate::routing::RoutingAlgo;
use crate::units::Nanosecs;
use std::collections::HashSet;
use vstd::prelude::*;

verus! {

broadcast use vstd::std_specs::hash::group_hash_axioms;

/// The number of quantiles that describe a distribution.
pub const NR_QUANTILES: usize = 1000;

/// Whether `sorted` holds the values of `values` in ascending order.
pub open spec fn is_sorted_copy(values: Seq<u64>, sorted: Seq<u64>) -> bool {
    &&& sorted.to_multiset() == values.to_multiset()
    &&& forall|i: int, j: int| 0 <= i <= j < sorted.len() ==> sorted[i] <= sorted[j]
}

/// Whether `points` holds what `extract` makes of the elements of `data`.
pub open spec fn extracted<T, F: Fn(&T) -> u64>(data: Seq<T>, extract: F, points: Seq<u64>) -> bool {
    &&& points.len() == data.len()
    &&& forall|i: int|
        0 <= i < data.len() ==> call_ensures(extract, (&data[i],), #[trigger] points[i])
}

/// The position of a quantile lies within the values.
pub proof fn lemma_quantile_index(p: int, len: int)
    requires
        0 <= p < 1000,
        len > 0,
    ensures
        0 <= p * len <= 999 * len,
        0 <= p * len / 1000 < len,
{
    assert(0 <= p * len <= 999 * len) by (nonlinear_arith)
        requires
            0 <= p < 1000,
            len > 0,
    ;
}

/// Returns 1000 quantiles of `data`, where `extract` gives the value by
/// which an element is ranked: the quantile `p` is the value at position
/// `p * len / 1000`, rounded down, among the `len` values in ascending order.
#[verifier::rlimit(50)]
pub fn percentiles<T, F: Fn(&T) -> u64>(data: &[T], extract: F) -> (r: Vec<u64>)
    requires
        data@.len() > 0,
        forall|i: int| 0 <= i < data@.len() ==> call_requires(extract, (&#[trigger] data@[i],)),
    ensures
        r@.len() == NR_QUANTILES,
        exists|points: Seq<u64>, sorted: Seq<u64>|
            {
                &&& extracted(data@, extract, points)
                &&& is_sorted_copy(points, sorted)
                &&& sorted.len() == data@.len()
                &&& forall|p: int|
                    0 <= p < NR_QUANTILES ==> (#[trigger] r@[p]) == sorted[p * data@.len() / 1000]
            },
{
    let len = data.len();
    let mut points: Vec<u64> = Vec::new();
    let mut i: usize = 0;
    while i < len
        invariant
            i <= len,
            len == data@.len(),
            points@.len() == i,
            forall|j: int| 0 <= j < data@.len() ==> call_requires(extract, (&#[trigger] data@[j],)),
            forall|j: int| 0 <= j < i ==> call_ensures(extract, (&data@[j],), #[trigger] points@[j]),
        decreases len - i,
    {
        let value = extract(&data[i]);
        points.push(value);
        i += 1;
    }
    let ghost unsorted = points@;
    crate::seqs::sort_by_key(&mut points);
    proof {
        broadcast use vstd::seq_lib::to_multiset_len;

        assert(points@.len() == points@.to_multiset().len());
        assert(unsorted.len() == unsorted.to_multiset().len());
    }
    let mut out: Vec<u64> = Vec::new();
    let mut p: usize = 0;
    while p < NR_QUANTILES
        invariant
            p <= NR_QUANTILES,
            len == points@.len(),
            len > 0,
            out@.len() == p,
            forall|q: int| 0 <= q < p ==> (#[trigger] out@[q]) == points@[q * len / 1000],
        decreases NR_QUANTILES - p,
    {
        proof {
            lemma_quantile_index(p as int, len as int);
        }
        let product: u128 = (p as u128) * (len as u128);
        let idx = (product / 1000) as usize;
        out.push(points[idx]);
        p += 1;
    }
    proof {
        assert(extracted(data@, extract, unsorted));
        assert(is_sorted_copy(unsorted, points@));
    }
    out
}

/// Returns the times between the starts of consecutive flows. There must be
/// two flows at least, in the order of their starts.
pub fn deltas(flows: &[Flow]) -> (r: Vec<Nanosecs>)
    requires
        flows@.len() >= 2,
        sorted_by_start(flows@),
    ensures
        r@.len() == flows@.len() - 1,
        forall|i: int|
            0 <= i < r@.len() ==> (#[trigger] r@[i]).0 == flows@[i + 1].start.0 - flows@[i].start.0,
{
    let mut out: Vec<Nanosecs> = Vec::new();
    let mut i: usize = 1;
    while i < flows.len()
        invariant
            1 <= i <= flows@.len(),
            sorted_by_start(flows@),
            out@.len() == i - 1,
            forall|j: int|
                0 <= j < out@.len() ==> (#[trigger] out@[j]).0 == flows@[j + 1].start.0
                    - flows@[j].start.0,
        decreases flows@.len() - i,
    {
        out.push(Nanosecs(flows[i].start.0 - flows[i - 1].start.0));
        i += 1;
    }
    out
}

/// Greedy clustering: the first channel that is in no cluster yet becomes
/// the representative of a new cluster, which all channels join that are in
/// no cluster yet and whose feature is close enough to that of the
/// representative; and so on, until every channel is in a cluster.
pub struct GreedyClustering<F, G> {
    pub feature: F,
    pub is_close_enough: G,
}

impl<F, G> GreedyClustering<F, G> {
    /// A greedy clustering by the feature that `feature` makes of a channel
    /// and its flows, where `is_close_enough` tells whether two features are
    /// close enough to share a cluster.
    pub fn new(feature: F, is_close_enough: G) -> (r: Self)
        ensures
            r.feature == feature,
            r.is_close_enough == is_close_enough,
    {
        GreedyClustering { feature, is_close_enough }
    }
}

/// Whether `x` is what `feature` made of the channel `e` and the flows that
/// cross it.
pub open spec fn is_feature<X, F: Fn(&FlowChannel, &[Flow]) -> X>(
    network: Shown,
    feature: F,
    e: int,
    x: X,
) -> bool {
    exists|flows: &[Flow]|
        #![trigger call_ensures(feature, (&network.channels[e], flows), x)]
        {
            &&& flows@.len() == network.channels[e].flows@.len()
            &&& forall|i: int|
                0 <= i < flows@.len() ==> (#[trigger] flows@[i])
                    == network.flows[network.channels[e].flows@[i].0]
            &&& call_ensures(feature, (&network.channels[e], flows), x)
        }
}

/// Whether `features` holds, for every channel, what `feature` made of the
/// channel and its flows.
pub open spec fn features_of<X, F: Fn(&FlowChannel, &[Flow]) -> X>(
    network: Shown,
    feature: F,
    features: Seq<X>,
) -> bool {
    &&& features.len() == network.channels.len()
    &&& forall|e: int|
        0 <= e < features.len() ==> is_feature(network, feature, e, #[trigger] features[e])
}

/// Whether every member of a cluster other than its representative has a
/// feature that was found close enough to that of the representative.
pub open spec fn members_close<X, G: Fn(&X, &X) -> bool>(
    clusters: Seq<Cluster>,
    is_close_enough: G,
    features: Seq<X>,
) -> bool {
    forall|c: int, e: usize|
        0 <= c < clusters.len() && #[trigger] clusters[c].members@.contains(e) && e
            != clusters[c].representative ==> e < features.len() && clusters[c].representative
            < features.len() && call_ensures(
            is_close_enough,
            (&features[clusters[c].representative as int], &features[e as int]),
            true,
        )
}

/// Whether the channel `e` is a member of one of the clusters up to the
/// cluster `c`.
pub open spec fn taken_by(clusters: Seq<Cluster>, c: int, e: usize) -> bool {
    exists|d: int| 0 <= d <= c && d < clusters.len() && #[trigger] clusters[d].members@.contains(e)
}

/// Whether every channel after the representative of a cluster that is
/// neither in that cluster nor in an earlier one has a feature that was
/// found not close enough to that of the representative.
pub open spec fn others_far<X, G: Fn(&X, &X) -> bool>(
    clusters: Seq<Cluster>,
    is_close_enough: G,
    features: Seq<X>,
) -> bool {
    forall|c: int, e: usize|
        0 <= c < clusters.len() && clusters[c].representative < e < features.len() && !(
        #[trigger] taken_by(clusters, c, e)) ==> clusters[c].representative < features.len()
            && call_ensures(
            is_close_enough,
            (&features[clusters[c].representative as int], &features[e as int]),
            false,
        )
}

impl<X, F: Fn(&FlowChannel, &[Flow]) -> X, G: Fn(&X, &X) -> bool> ClusteringAlgo for GreedyClustering<
    F,
    G,
> {
    /// Both functions can be called on every argument.
    open spec fn ready(&self) -> bool {
        &&& forall|chan: &FlowChannel, flows: &[Flow]|
            #[trigger] call_requires(self.feature, (chan, flows))
        &&& forall|a: &X, b: &X| #[trigger] call_requires(self.is_close_enough, (a, b))
    }

    /// The representatives come in the order of their indices, each the
    /// smallest channel that no cluster before it took, and with features of
    /// the channels, a cluster holds its representative and the later
    /// channels that no cluster before it took and that were found close
    /// enough to the representative.
    open spec fn gives(&self, network: Shown, clusters: Seq<Cluster>) -> bool {
        &&& forall|c: int, d: int|
            0 <= c < d < clusters.len() ==> (#[trigger] clusters[c]).representative < (
            #[trigger] clusters[d]).representative
        &&& exists|features: Seq<X>|
            #![trigger features_of(network, self.feature, features)]
            features_of(network, self.feature, features) && members_close(
                clusters,
                self.is_close_enough,
                features,
            ) && others_far(clusters, self.is_close_enough, features)
    }

    #[verifier::rlimit(50)]
    fn cluster<R: RoutingAlgo>(&self, network: &SimNetwork<R>) -> (r: Vec<Cluster>) {
        let m = network.topology.channels.len();
        let mut features: Vec<X> = Vec::new();
        let mut e: usize = 0;
        while e < m
            invariant
                e <= m,
                network.wf(),
                m == network.topology.channels@.len(),
                forall|chan: &FlowChannel, flows: &[Flow]|
                    #[trigger] call_requires(self.feature, (chan, flows)),
                features@.len() == e,
                forall|f: int|
                    0 <= f < e ==> is_feature(network.shown(), self.feature, f, #[trigger] features@[f]),
            decreases m - e,
        {
            let flows = match network.flows_on(e) {
                Some(flows) => flows,
                None => Vec::new(),
            };
            let ghost before = features@;
            let given = flows.as_slice();
            let x = (self.feature)(&network.topology.channels[e], given);
            features.push(x);
            proof {
                assert(network.shown().channels[e as int] == network.topology.channels@[e as int]);
                assert(call_ensures(
                    self.feature,
                    (&network.shown().channels[e as int], given),
                    features@[e as int],
                ));
                assert(is_feature(network.shown(), self.feature, e as int, features@[e as int]));
                assert forall|f: int| 0 <= f < e + 1 implies is_feature(
                    network.shown(),
                    self.feature,
                    f,
                    #[trigger] features@[f],
                ) by {
                    if f < e {
                        assert(features@[f] == before[f]);
                    }
                }
            }
            e += 1;
        }
        let mut clustered: Vec<bool> = Vec::new();
        let mut e: usize = 0;
        while e < m
            invariant
                e <= m,
                clustered@.len() == e,
                forall|f: int| 0 <= f < e ==> !(#[trigger] clustered@[f]),
            decreases m - e,
        {
            clustered.push(false);
            e += 1;
        }
        let mut clusters: Vec<Cluster> = Vec::new();
        let mut rep: usize = 0;
        while rep < m
            invariant
                rep <= m,
                clustered@.len() == m,
                features@.len() == m,
                forall|a: &X, b: &X| #[trigger] call_requires(self.is_close_enough, (a, b)),
                greedy_state(clusters@, clustered@, rep as int),
                members_close(clusters@, self.is_close_enough, features@),
                others_far(clusters@, self.is_close_enough, features@),
            decreases m - rep,
        {
            if !clustered[rep] {
                let ghost before = clustered@;
                let ghost earlier = clusters@;
                clustered[rep] = true;
                let mut members: HashSet<usize> = HashSet::new();
                members.insert(rep);
                let mut cand: usize = rep + 1;
                while cand < m
                    invariant
                        rep < cand <= m,
                        clustered@.len() == m,
                        before.len() == m,
                        features@.len() == m,
                        forall|a: &X, b: &X| #[trigger] call_requires(self.is_close_enough, (a, b)),
                        members@.contains(rep),
                        forall|f: usize|
                            #[trigger] members@.contains(f) ==> f < m && !before[f as int] && (f
                                == rep || call_ensures(
                                self.is_close_enough,
                                (&features@[rep as int], &features@[f as int]),
                                true,
                            )),
                        forall|f: int|
                            0 <= f < m ==> ((#[trigger] clustered@[f]) <==> before[f]
                                || members@.contains(f as usize)),
                        forall|f: int|
                            rep < f < cand && !(#[trigger] clustered@[f]) ==> call_ensures(
                                self.is_close_enough,
                                (&features@[rep as int], &features@[f]),
                                false,
                            ),
                    decreases m - cand,
                {
                    if !clustered[cand] {
                        let close = (self.is_close_enough)(&features[rep], &features[cand]);
                        if close {
                            members.insert(cand);
                            clustered[cand] = true;
                        }
                    }
                    cand += 1;
                }
                let cluster = Cluster::new(rep, members);
                clusters.push(cluster);
                proof {
                    lemma_greedy_step(earlier, before, clusters@, clustered@, rep as int);
                    assert forall|c: int, e: usize|
                        0 <= c < clusters@.len() && clusters@[c].representative < e
                            < features@.len() && !(#[trigger] taken_by(
                            clusters@,
                            c,
                            e,
                        )) implies clusters@[c].representative < features@.len() && call_ensures(
                        self.is_close_enough,
                        (&features@[clusters@[c].representative as int], &features@[e as int]),
                        false,
                    ) by {
                        if c < earlier.len() {
                            assert(clusters@[c] == earlier[c]);
                            if taken_by(earlier, c, e) {
                                let d = choose|d: int|
                                    0 <= d <= c && d < earlier.len()
                                        && #[trigger] earlier[d].members@.contains(e);
                                assert(clusters@[d].members@.contains(e));
                            }
                        } else {
                            assert(clusters@[c].members@.contains(e) ==> taken_by(clusters@, c, e));
                            if before[e as int] {
                                assert(covered(earlier, e));
                                let d = choose|d: int|
                                    0 <= d < earlier.len()
                                        && #[trigger] earlier[d].members@.contains(e);
                                assert(clusters@[d].members@.contains(e));
                            }
                            assert(!clustered@[e as int]);
                        }
                    }
                    assert forall|c: int, e: usize|
                        0 <= c < clusters@.len() && #[trigger] clusters@[c].members@.contains(e)
                            && e != clusters@[c].representative implies e < features@.len()
                        && clusters@[c].representative < features@.len() && call_ensures(
                        self.is_close_enough,
                        (&features@[clusters@[c].representative as int], &features@[e as int]),
                        true,
                    ) by {
                        if c < earlier.len() {
                            assert(clusters@[c] == earlier[c]);
                            assert(earlier[c].members@.contains(e));
                        }
                    }
                }
            } else {
                proof {
                    lemma_greedy_skip(clusters@, clustered@, rep as int);
                }
            }
            rep += 1;
        }
        proof {
            lemma_greedy_done(clusters@, clustered@);
            assert(features_of(network.shown(), self.feature, features@));
        }
        clusters
    }
}

/// What holds of the clusters while they are built, when all channels before
/// `next` are in a cluster: a channel is marked exactly if it is in a
/// cluster; the clusters do not overlap; the representative of a cluster is
/// its smallest member; and the representatives ascend.
pub open spec fn greedy_state(clusters: Seq<Cluster>, clustered: Seq<bool>, next: int) -> bool {
    &&& 0 <= next <= clustered.len()
    &&& clustered.len() <= usize::MAX
    &&& forall|f: int| 0 <= f < next ==> #[trigger] clustered[f]
    &&& forall|f: usize|
        f < clustered.len() ==> (clustered[f as int] <==> #[trigger] covered(clusters, f))
    &&& forall|c: int, e: usize|
        0 <= c < clusters.len() && #[trigger] clusters[c].members@.contains(e) ==> e
            < clustered.len() && clusters[c].representative <= e
    &&& forall|c: int|
        0 <= c < clusters.len() ==> (#[trigger] clusters[c]).members@.contains(
            clusters[c].representative,
        ) && clusters[c].representative < next
    &&& forall|c: int, d: int, e: usize|
        0 <= c < clusters.len() && 0 <= d < clusters.len() && #[trigger] clusters[c].members@.contains(
            e,
        ) && #[trigger] clusters[d].members@.contains(e) ==> c == d
    &&& forall|c: int, d: int|
        0 <= c < d < clusters.len() ==> (#[trigger] clusters[c]).representative < (
        #[trigger] clusters[d]).representative
}

/// A new cluster around the first channel that was in none keeps the
/// clusters in order.
#[verifier::rlimit(50)]
pub proof fn lemma_greedy_step(
    earlier: Seq<Cluster>,
    before: Seq<bool>,
    clusters: Seq<Cluster>,
    clustered: Seq<bool>,
    rep: int,
)
    requires
        greedy_state(earlier, before, rep),
        rep < before.len(),
        !before[rep],
        clustered.len() == before.len(),
        clusters.len() == earlier.len() + 1,
        forall|c: int| 0 <= c < earlier.len() ==> clusters[c] == earlier[c],
        clusters.last().representative == rep,
        clusters.last().members@.contains(rep as usize),
        forall|f: usize|
            #[trigger] clusters.last().members@.contains(f) ==> f < before.len() && !before[f as int],
        forall|f: int|
            0 <= f < before.len() ==> ((#[trigger] clustered[f]) <==> before[f]
                || clusters.last().members@.contains(f as usize)),
    ensures
        greedy_state(clusters, clustered, rep + 1),
{
    let new = clusters.last();
    let k = earlier.len() as int;
    assert(clusters[k] == new);
    assert forall|f: usize| f < clustered.len() implies (clustered[f as int] <==> #[trigger] covered(
        clusters,
        f,
    )) by {
        if covered(earlier, f) {
            let c = choose|c: int| 0 <= c < earlier.len() && #[trigger] earlier[c].members@.contains(f);
            assert(clusters[c].members@.contains(f));
        }
        if new.members@.contains(f) {
            assert(clusters[k].members@.contains(f));
        }
        if covered(clusters, f) {
            let c = choose|c: int| 0 <= c < clusters.len() && #[trigger] clusters[c].members@.contains(f);
            if c < k {
                assert(earlier[c].members@.contains(f));
                assert(covered(earlier, f));
            }
        }
    }
    assert forall|c: int, e: usize|
        0 <= c < clusters.len() && #[trigger] clusters[c].members@.contains(e) implies e
        < clustered.len() && clusters[c].representative <= e by {
        if c < k {
            assert(earlier[c].members@.contains(e));
        } else {
            assert(new.members@.contains(e));
            if e < rep {
                assert(before[e as int]);
            }
        }
    }
    assert forall|c: int|
        0 <= c < clusters.len() implies (#[trigger] clusters[c]).members@.contains(
        clusters[c].representative,
    ) && clusters[c].representative < rep + 1 by {
        if c < k {
            assert(earlier[c].members@.contains(earlier[c].representative));
        }
    }
    assert forall|c: int, d: int, e: usize|
        0 <= c < clusters.len() && 0 <= d < clusters.len() && #[trigger] clusters[c].members@.contains(
            e,
        ) && #[trigger] clusters[d].members@.contains(e) implies c == d by {
        if c < k && d < k {
            assert(earlier[c].members@.contains(e) && earlier[d].members@.contains(e));
        } else if c < k {
            assert(earlier[c].members@.contains(e));
            assert(covered(earlier, e));
        } else if d < k {
            assert(earlier[d].members@.contains(e));
            assert(covered(earlier, e));
        }
    }
    assert forall|c: int, d: int| 0 <= c < d < clusters.len() implies (#[trigger] clusters[c]).representative
        < (#[trigger] clusters[d]).representative by {
        if d < k {
            assert(earlier[c].representative < earlier[d].representative);
        } else {
            assert(earlier[c].members@.contains(earlier[c].representative));
        }
    }
    assert forall|f: int| 0 <= f < rep + 1 implies #[trigger] clustered[f] by {
        if f < rep {
            assert(before[f]);
        }
    }
}

/// A channel that is in a cluster already is passed over.
pub proof fn lemma_greedy_skip(clusters: Seq<Cluster>, clustered: Seq<bool>, rep: int)
    requires
        greedy_state(clusters, clustered, rep),
        rep < clustered.len(),
        clustered[rep],
    ensures
        greedy_state(clusters, clustered, rep + 1),
{
}

/// When every channel is in a cluster, the clusters part the channels.
pub proof fn lemma_greedy_done(clusters: Seq<Cluster>, clustered: Seq<bool>)
    requires
        greedy_state(clusters, clustered, clustered.len() as int),
    ensures
        is_partition(clusters, clustered.len()),
{
    assert forall|e: usize| e < clustered.len() implies #[trigger] covered(clusters, e) by {
        assert(clustered[e as int]);
    }
}

} // verus!
