//! Running the link-level simulations of a network and folding their
//! results into distributions of delay.

use crate::cluster::{covered, is_partition, Cluster};
use crate::edist::{
    buckets_from, dists_of, is_sorted_by_size, BucketOpts, EDistBuckets, EDistError, PktNormDelay,
    SizeRange,
};
use crate::linksim::{LinkSim, LinkSimError, LinkSimSpec};
use crate::network::delay::DelayNetwork;
use crate::network::sim::SimNetwork;
use crate::network::topology::{basic_of, Topology};
use crate::network::types::{Channel, EDistChannel, FctRecord, Flow, FlowChannel};
use crate::routing::RoutingAlgo;
use std::collections::HashMap;
use vstd::prelude::*;

verus! {

broadcast use vstd::std_specs::hash::group_hash_axioms;

/// The reasons for which the simulations of a network fail.
#[derive(Debug, Clone, PartialEq, Eq)]
pub enum SimNetworkError {
    /// A link-level simulation failed.
    LinkSim(LinkSimError),
    /// A distribution could not be built.
    EDist(EDistError),
}

/// What the error says where a channel that carries flows cannot be described
/// as a bottleneck.
pub const NO_BOTTLENECK: &'static str = "the channel is no bottleneck";

/// Whether `dists` are the distributions that the records `data` give:
/// none where there is no record, and else the buckets of the records with
/// the delays per packet of their records.
pub open spec fn filled_from(
    data: Seq<FctRecord>,
    opts: BucketOpts,
    dists: Seq<(SizeRange, Seq<PktNormDelay>)>,
) -> bool {
    if data.len() == 0 {
        dists.len() == 0
    } else {
        exists|sorted: Seq<FctRecord>|
            is_sorted_by_size(data, sorted) && dists == dists_of(buckets_from(sorted, 0, 0, opts))
    }
}

/// The records that stand for the channel `rep`: those that were found for
/// it, and none where nothing was found.
pub open spec fn records_for(data: Map<usize, Vec<FctRecord>>, rep: usize) -> Seq<FctRecord> {
    if data.contains_key(rep) {
        data[rep]@
    } else {
        Seq::empty()
    }
}

/// Whether every channel carries the distributions that the records of the
/// representative of its cluster give.
pub open spec fn folded(
    clusters: Seq<Cluster>,
    data: Map<usize, Vec<FctRecord>>,
    opts: BucketOpts,
    channels: Seq<EDistChannel>,
) -> bool {
    forall|c: int, e: usize|
        0 <= c < clusters.len() && #[trigger] clusters[c].members@.contains(e) ==> filled_from(
            records_for(data, clusters[c].representative),
            opts,
            channels[e as int].dists@,
        )
}

/// Whether records were found for the representative of every cluster, and
/// none for a representative that carries no flow.
pub open spec fn found_for(
    clusters: Seq<Cluster>,
    carried: Seq<FlowChannel>,
    data: Map<usize, Vec<FctRecord>>,
) -> bool {
    &&& forall|c: int|
        0 <= c < clusters.len() ==> data.contains_key((#[trigger] clusters[c]).representative)
    &&& forall|e: usize|
        data.contains_key(e) ==> e < carried.len() && (carried[e as int].flows@.len() == 0
            ==> data[e]@.len() == 0)
}

/// Whether no representative of a cluster carries a flow, so that nothing is
/// left to simulate.
pub open spec fn all_idle(clusters: Seq<Cluster>, carried: Seq<FlowChannel>) -> bool {
    forall|c: int|
        0 <= c < clusters.len() ==> carried[(#[trigger] clusters[c]).representative as int].flows@.len()
            == 0
}

/// Where no representative carries a flow, no channel gets a distribution.
pub proof fn lemma_idle_empty(
    clusters: Seq<Cluster>,
    carried: Seq<FlowChannel>,
    data: Map<usize, Vec<FctRecord>>,
    opts: BucketOpts,
    channels: Seq<EDistChannel>,
)
    requires
        channels.len() <= usize::MAX,
        is_partition(clusters, channels.len()),
        all_idle(clusters, carried),
        found_for(clusters, carried, data),
        folded(clusters, data, opts, channels),
    ensures
        forall|e: int| 0 <= e < channels.len() ==> (#[trigger] channels[e]).dists@.len() == 0,
{
    assert forall|e: int| 0 <= e < channels.len() implies (#[trigger] channels[e]).dists@.len()
        == 0 by {
        let u = e as usize;
        assert(covered(clusters, u));
        let c = choose|c: int| 0 <= c < clusters.len() && #[trigger] clusters[c].members@.contains(u);
        let rep = clusters[c].representative;
        assert(data.contains_key(rep));
        assert(records_for(data, rep).len() == 0);
        assert(filled_from(records_for(data, rep), opts, channels[u as int].dists@));
    }
}

impl<R: RoutingAlgo> SimNetwork<R> {
    /// Whether `data` holds, for every representative of a cluster that
    /// carries flows, records with which the simulator `sim` may answer when
    /// it is handed that channel.
    pub open spec fn answered_all<S: LinkSim>(
        &self,
        sim: &S,
        data: Map<usize, Vec<FctRecord>>,
    ) -> bool {
        forall|c: int|
            0 <= c < self.clusters@.len() && self.topology.channels@[(
            #[trigger] self.clusters@[c]).representative as int].flows@.len() > 0 ==> {
                &&& self.describable(self.clusters@[c].representative as int)
                &&& data.contains_key(self.clusters@[c].representative)
                &&& self.answered(
                    sim,
                    self.clusters@[c].representative as int,
                    Ok(data[self.clusters@[c].representative]@),
                )
            }
    }

    /// Whether `channels` carry the distributions that simulating the
    /// network with `sim` gives: there are records for the representative
    /// of every cluster, those of a representative that carries flows are
    /// an answer of `sim` for it, and every channel carries the
    /// distributions that the records of the representative of its cluster
    /// give.
    pub open spec fn delays_from<S: LinkSim>(
        &self,
        sim: &S,
        opts: BucketOpts,
        channels: Seq<EDistChannel>,
    ) -> bool {
        exists|data: Map<usize, Vec<FctRecord>>|
            #![trigger found_for(self.clusters@, self.topology.channels@, data)]
            {
                &&& found_for(self.clusters@, self.topology.channels@, data)
                &&& self.answered_all(sim, data)
                &&& folded(self.clusters@, data, opts, channels)
            }
    }

    /// Whether the simulator `sim` may fail with `e` when it is handed the
    /// representative of some cluster, or such a representative cannot be
    /// described as a bottleneck and `e` says so.
    pub open spec fn failed_with<S: LinkSim>(&self, sim: &S, e: LinkSimError) -> bool {
        exists|c: int|
            0 <= c < self.clusters@.len() && self.topology.channels@[(
            #[trigger] self.clusters@[c]).representative as int].flows@.len() > 0 && (if self.describable(
                self.clusters@[c].representative as int,
            ) {
                self.answered(sim, self.clusters@[c].representative as int, Err(e))
            } else {
                e matches LinkSimError::Other(why) && why@ == NO_BOTTLENECK@
            })
    }

    /// Simulates the representative of every cluster with the given
    /// simulator, one after the other, and returns the records by the index
    /// of the representative. A representative that carries no flow is not
    /// simulated and has no records.
    ///
    /// The first simulation that fails ends the run with its error, and so
    /// does a representative that carries flows but cannot be described as a
    /// bottleneck.
    #[verifier::rlimit(50)]
    pub fn simulate_clusters_locally<S: LinkSim>(&self, sim: &S) -> (r: Result<
        HashMap<usize, Vec<FctRecord>>,
        SimNetworkError,
    >)
        requires
            self.wf(),
        ensures
            match r {
                Ok(data) => {
                    &&& found_for(self.clusters@, self.topology.channels@, data@)
                    &&& self.answered_all(sim, data@)
                },
                Err(SimNetworkError::LinkSim(e)) => self.failed_with(sim, e),
                Err(SimNetworkError::EDist(_)) => false,
            },
            all_idle(self.clusters@, self.topology.channels@) ==> r is Ok,
    {
        let mut data: HashMap<usize, Vec<FctRecord>> = HashMap::new();
        let mut c: usize = 0;
        while c < self.clusters.len()
            invariant
                c <= self.clusters@.len(),
                self.wf(),
                forall|k: int|
                    0 <= k < c ==> data@.contains_key((#[trigger] self.clusters@[k]).representative),
                forall|e: usize|
                    data@.contains_key(e) ==> e < self.topology.channels@.len() && (
                    self.topology.channels@[e as int].flows@.len() == 0 ==> data@[e]@.len() == 0),
                forall|k: int|
                    0 <= k < c && self.topology.channels@[(
                    #[trigger] self.clusters@[k]).representative as int].flows@.len() > 0 ==> {
                        &&& self.describable(self.clusters@[k].representative as int)
                        &&& data@.contains_key(self.clusters@[k].representative)
                        &&& self.answered(
                            sim,
                            self.clusters@[k].representative as int,
                            Ok(data@[self.clusters@[k].representative]@),
                        )
                    },
            decreases self.clusters@.len() - c,
        {
            let edge = self.clusters[c].representative();
            proof {
                assert(self.clusters@[c as int].members@.contains(edge));
                assert(edge < self.topology.channels@.len());
            }
            let records = if self.topology.channels[edge].nr_flows() == 0 {
                Vec::new()
            } else {
                proof {
                    assert(self.topology.channels@[self.clusters@[c as int].representative as int].flows@.len()
                        > 0);
                }
                if !self.can_describe(edge) {
                    return Err(
                        SimNetworkError::LinkSim(
                            LinkSimError::Other(NO_BOTTLENECK.to_owned()),
                        ),
                    );
                }
                let desc = match self.link_sim_desc(edge) {
                    Some(desc) => desc,
                    None => {
                        return Err(SimNetworkError::LinkSim(LinkSimError::UnknownEdge(edge)));
                    },
                };
                let flows = match self.flows_on(edge) {
                    Some(flows) => flows,
                    None => {
                        return Err(SimNetworkError::LinkSim(LinkSimError::UnknownEdge(edge)));
                    },
                };
                let spec = LinkSimSpec {
                    edge: desc.edge,
                    bottleneck: desc.bottleneck,
                    other_links: desc.other_links,
                    nodes: desc.nodes,
                    flows,
                };
                proof {
                    assert(spec.flows@ =~= self.flows_of(edge as int));
                    assert(self.is_descriptor(edge as int, desc));
                    assert(self.specifies(edge as int, spec@));
                }
                let ghost handed = spec@;
                match sim.simulate(spec) {
                    Ok(records) => {
                        proof {
                            assert(sim.answers(handed, Ok(records@)));
                            assert(self.answered(sim, edge as int, Ok(records@)));
                        }
                        records
                    },
                    Err(e) => {
                        proof {
                            assert(sim.answers(handed, Err(e)));
                            assert(self.answered(sim, edge as int, Err(e)));
                        }
                        return Err(SimNetworkError::LinkSim(e));
                    },
                }
            };
            let ghost before = data@;
            data.insert(edge, records);
            proof {
                assert forall|k: int|
                    0 <= k < c + 1 && self.topology.channels@[(
                    #[trigger] self.clusters@[k]).representative as int].flows@.len() > 0 implies {
                    &&& self.describable(self.clusters@[k].representative as int)
                    &&& data@.contains_key(self.clusters@[k].representative)
                    &&& self.answered(
                        sim,
                        self.clusters@[k].representative as int,
                        Ok(data@[self.clusters@[k].representative]@),
                    )
                } by {
                    let rep = self.clusters@[k].representative;
                    if k < c && rep != edge {
                        assert(data@[rep] == before[rep]);
                    } else if k < c {
                        // Two clusters have one representative only if they are one cluster.
                        assert(self.clusters@[k].members@.contains(rep));
                        assert(self.clusters@[c as int].members@.contains(edge));
                    }
                }
            }
            c += 1;
        }
        Ok(data)
    }

    /// Turns the network into a network of delay distributions, given the
    /// records that were found for the representatives of the clusters.
    ///
    /// Every channel gets the distributions that the records of the
    /// representative of its cluster give: the records are put into buckets
    /// by their sizes, and every bucket holds the delays per packet of its
    /// records. A channel whose representative has no records gets no
    /// distribution.
    #[verifier::rlimit(50)]
    pub fn fill_delays(self, data: &HashMap<usize, Vec<FctRecord>>, opts: BucketOpts) -> (r: Result<
        DelayNetwork<R>,
        SimNetworkError,
    >)
        requires
            self.wf(),
        ensures
            r is Ok,
            r matches Ok(net) ==> {
                &&& net.wf()
                &&& net.routes == self.routes
                &&& net.topology.nodes@ == self.topology.nodes@
                &&& net.topology.links@ == self.topology.links@
                &&& net.topology.basics() == self.topology.basics()
                &&& folded(self.clusters@, data@, opts, net.topology.channels@)
            },
    {
        let SimNetwork {
            topology,
            routes,
            clusters,
            flows,
            channel_to_flowid_map,
            path_to_flowid_map,
            workload,
        } = self;
        let Topology { graph, id2idx, nodes, channels: carried, links } = topology;
        let ghost old_topology = Topology { graph, id2idx, nodes, channels: carried, links };
        let m = carried.len();
        let mut channels: Vec<EDistChannel> = Vec::new();
        let mut e: usize = 0;
        while e < m
            invariant
                e <= m,
                m == carried@.len(),
                channels@.len() == e,
                forall|f: int|
                    0 <= f < e ==> basic_of(#[trigger] channels@[f]) == basic_of(carried@[f])
                        && channels@[f].dists@.len() == 0,
            decreases m - e,
        {
            let chan = EDistChannel::new_from(&carried[e]);
            proof {
                assert(chan.dists@.len() == chan.dists.inner@.len());
            }
            channels.push(chan);
            e += 1;
        }
        let mut c: usize = 0;
        while c < clusters.len()
            invariant
                c <= clusters@.len(),
                m == carried@.len(),
                channels@.len() == m,
                is_partition(clusters@, m as nat),
                forall|f: int|
                    0 <= f < m ==> basic_of(#[trigger] channels@[f]) == basic_of(carried@[f]),
                forall|k: int, f: usize|
                    0 <= k < c && #[trigger] clusters@[k].members@.contains(f) ==> filled_from(
                        records_for(data@, clusters@[k].representative),
                        opts,
                        channels@[f as int].dists@,
                    ),
                forall|f: usize|
                    f < m && !covered(clusters@.take(c as int), f) ==> (#[trigger] channels@[f as int]).dists@.len()
                        == 0,
            decreases clusters@.len() - c,
        {
            let rep = clusters[c].representative();
            let members = clusters[c].members();
            let ghost before = channels@;
            let mut i: usize = 0;
            proof {
                assert forall|j: int| 0 <= j < members@.len() implies (#[trigger] members@[j])
                    < m by {
                    assert(members@.contains(members@[j]));
                    assert(clusters@[c as int].members@.contains(members@[j]));
                }
            }
            while i < members.len()
                invariant
                    i <= members@.len(),
                    c < clusters@.len(),
                    m == carried@.len(),
                    channels@.len() == m,
                    rep == clusters@[c as int].representative,
                    members@.to_set() == clusters@[c as int].members@,
                    members@.no_duplicates(),
                    before.len() == m,
                    forall|j: int| 0 <= j < members@.len() ==> (#[trigger] members@[j]) < m,
                    forall|f: usize|
                        f < m && !covered(clusters@.take(c as int), f) ==> (#[trigger] before[f as int]).dists@.len()
                            == 0,
                    is_partition(clusters@, m as nat),
                    forall|f: int|
                        0 <= f < m ==> basic_of(#[trigger] channels@[f]) == basic_of(carried@[f]),
                    forall|j: int|
                        0 <= j < i ==> filled_from(
                            records_for(data@, rep),
                            opts,
                            channels@[(#[trigger] members@[j]) as int].dists@,
                        ),
                    forall|f: int|
                        0 <= f < m && !members@.take(i as int).contains(f as usize)
                            ==> (#[trigger] channels@[f]).dists@ == before[f].dists@,
                decreases members@.len() - i,
            {
                let member = members[i];
                proof {
                    assert(members@.contains(member));
                    assert(clusters@[c as int].members@.contains(member));
                    assert(member < m);
                }
                let ghost old_channels = channels@;
                match data.get(&rep) {
                    Some(records) => {
                        if records.len() > 0 {
                            let _ = channels[member].dists.fill(records.as_slice(), opts);
                        }
                    },
                    None => {},
                }
                proof {
                    assert(members@.take(i + 1) =~= members@.take(i as int).push(member));
                    assert forall|f: int|
                        0 <= f < m && f != member implies (#[trigger] channels@[f])
                        == old_channels[f] by {}
                    assert forall|j: int| 0 <= j < i implies filled_from(
                        records_for(data@, rep),
                        opts,
                        channels@[(#[trigger] members@[j]) as int].dists@,
                    ) by {
                        assert(members@[j] != member);
                    }
                    assert(filled_from(
                        records_for(data@, rep),
                        opts,
                        channels@[member as int].dists@,
                    )) by {
                        if records_for(data@, rep).len() == 0 {
                            assert(!members@.take(i as int).contains(member)) by {
                                if members@.take(i as int).contains(member) {
                                    let j = choose|j: int|
                                        0 <= j < i && members@.take(i as int)[j] == member;
                                    assert(members@[j] == members@[i as int]);
                                }
                            }
                            assert(old_channels[member as int].dists@ == before[member as int].dists@);
                            assert(!covered(clusters@.take(c as int), member)) by {
                                if covered(clusters@.take(c as int), member) {
                                    let k = choose|k: int|
                                        0 <= k < clusters@.take(c as int).len()
                                            && #[trigger] clusters@.take(c as int)[k].members@.contains(
                                            member,
                                        );
                                    assert(clusters@[k].members@.contains(member));
                                }
                            }
                        }
                    }
                    assert forall|f: int|
                        0 <= f < m && !members@.take(i + 1).contains(f as usize) implies (
                    #[trigger] channels@[f]).dists@ == before[f].dists@ by {
                        if f == member {
                            assert(members@.take(i + 1)[i as int] == member);
                        }
                        if members@.take(i as int).contains(f as usize) {
                            let j = choose|j: int|
                                0 <= j < i && members@.take(i as int)[j] == f as usize;
                            assert(members@.take(i + 1)[j] == f as usize);
                        }
                    }
                }
                i += 1;
            }
            proof {
                assert(members@.take(i as int) =~= members@);
                assert forall|k: int, f: usize|
                    0 <= k < c + 1 && #[trigger] clusters@[k].members@.contains(f) implies filled_from(
                    records_for(data@, clusters@[k].representative),
                    opts,
                    channels@[f as int].dists@,
                ) by {
                    if k < c {
                        assert(!clusters@[c as int].members@.contains(f));
                        assert(!members@.contains(f));
                        assert(f < m);
                        assert(channels@[f as int].dists@ == before[f as int].dists@);
                    } else {
                        assert(members@.contains(f));
                        let j = choose|j: int| 0 <= j < members@.len() && members@[j] == f;
                        assert(filled_from(
                            records_for(data@, rep),
                            opts,
                            channels@[members@[j] as int].dists@,
                        ));
                    }
                }
                assert forall|f: usize|
                    f < m && !covered(clusters@.take(c + 1), f) implies (#[trigger] channels@[f as int]).dists@.len()
                    == 0 by {
                    if covered(clusters@.take(c as int), f) {
                        let k = choose|k: int|
                            0 <= k < clusters@.take(c as int).len() && #[trigger] clusters@.take(
                                c as int,
                            )[k].members@.contains(f);
                        assert(clusters@.take(c + 1)[k].members@.contains(f));
                    }
                    if members@.contains(f) {
                        assert(clusters@.take(c + 1)[c as int].members@.contains(f));
                    }
                    assert(channels@[f as int].dists@ == before[f as int].dists@);
                }
            }
            c += 1;
        }
        let topology = Topology { graph, id2idx, nodes, channels, links };
        proof {
            assert(topology.basics() =~= old_topology.basics()) by {
                assert forall|f: int| 0 <= f < m implies topology.basics()[f]
                    == old_topology.basics()[f] by {
                    assert(basic_of(channels@[f]) == basic_of(carried@[f]));
                }
            }
            assert(crate::network::routes_fit(&routes, &topology)) by {
                assert(topology.edges() == old_topology.edges());
            }
        }
        Ok(DelayNetwork { topology, routes })
    }

    /// Turns the network into a network of delay distributions: the
    /// representative of every cluster is simulated with the given
    /// simulator, and every channel gets the distributions that the records
    /// of the representative of its cluster give.
    ///
    /// The run fails where a simulation fails, with its error, and where a
    /// representative that carries flows cannot be described as a
    /// bottleneck.
    #[verifier::rlimit(50)]
    pub fn into_delays<S: LinkSim>(self, opts: SimOpts<S>) -> (r: Result<
        DelayNetwork<R>,
        SimNetworkError,
    >)
        requires
            self.wf(),
        ensures
            r matches Ok(net) ==> {
                &&& net.wf()
                &&& net.routes == self.routes
                &&& net.topology.nodes@ == self.topology.nodes@
                &&& net.topology.links@ == self.topology.links@
                &&& net.topology.basics() == self.topology.basics()
                &&& self.delays_from(&opts.link_sim, opts.bucket_opts, net.topology.channels@)
            },
            r matches Err(SimNetworkError::LinkSim(e)) ==> self.failed_with(&opts.link_sim, e),
            !(r matches Err(SimNetworkError::EDist(_))),
            all_idle(self.clusters@, self.topology.channels@) ==> r is Ok,
    {
        let data = match self.simulate_clusters_locally(&opts.link_sim) {
            Ok(data) => data,
            Err(e) => {
                return Err(e);
            },
        };
        let ghost given = self;
        let r = self.fill_delays(&data, opts.bucket_opts);
        proof {
            assert(found_for(given.clusters@, given.topology.channels@, data@));
            assert(given.answered_all(&opts.link_sim, data@));
        }
        r
    }
}

/// How the link-level simulations are run and their results put into
/// buckets.
pub struct SimOpts<L> {
    /// The link-level simulator.
    pub link_sim: L,
    /// The parameters of the buckets.
    pub bucket_opts: BucketOpts,
}

impl<L> SimOpts<L> {
    /// Options with the given simulator and bucket parameters.
    pub fn new(link_sim: L, bucket_opts: BucketOpts) -> (r: Self)
        ensures
            r.link_sim == link_sim,
            r.bucket_opts == bucket_opts,
    {
        SimOpts { link_sim, bucket_opts }
    }
}

} // verus!
