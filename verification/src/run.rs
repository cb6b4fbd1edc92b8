//! The main entry: from a specification to a network of delay
//! distributions.

use crate::cluster::ClusteringAlgo;
use crate::edist::BucketOpts;
use crate::graph::GRAPH_CAPACITY;
use crate::linksim::LinkSim;
use crate::network::delay::DelayNetwork;
use crate::network::sim::{crossing, is_stable_sort, routed, SimNetwork};
use crate::network::simulate::{
    all_idle, folded, found_for, lemma_idle_empty, SimNetworkError, SimOpts,
};
use crate::network::topology::{in_id_order, valid_topology};
use crate::network::types::{FctRecord, Flow, FlowId, NodeId};
use crate::network::Network;
use crate::routing::{BfsRoutes, RoutingAlgo};
use crate::seqs::is_first;
use crate::shortest::lemma_routed;
use crate::spec::{flows_valid, spec_error, Spec, SpecError};
use crate::utils::spec_flow_hash;
use vstd::prelude::*;

verus! {

/// The reasons for which a run fails.
#[derive(Debug, Clone, PartialEq, Eq)]
pub enum Error {
    /// The specification is not valid.
    InvalidSpec(SpecError),
    /// No way leads from the source of a flow to its destination.
    Unroutable {
        /// The flow.
        flow: FlowId,
        /// Its source.
        src: NodeId,
        /// Its destination.
        dst: NodeId,
    },
    /// The simulations failed.
    SimNetwork(SimNetworkError),
}

impl Network<BfsRoutes> {
    /// Whether the routes offer a way from `src` to `dst`.
    pub open spec fn spec_has_route(&self, src: NodeId, dst: NodeId) -> bool {
        src == dst || (self.routes.hops(src, dst) is Some && self.routes.hops(src, dst)->0.len() > 0)
    }

    /// Returns true if a way leads from `src` to `dst`: the two are the same
    /// node, or the routes offer a hop from `src` towards `dst`.
    pub fn has_route(&self, src: NodeId, dst: NodeId) -> (r: bool)
        ensures
            r == self.spec_has_route(src, dst),
    {
        if src == dst {
            return true;
        }
        match self.routes.next_hops(src, dst) {
            Some(hops) => hops.len() > 0,
            None => false,
        }
    }
}

/// The test for the flow at a position to have no way through the network.
pub open spec fn stranded(network: &Network<BfsRoutes>, flows: Seq<Flow>) -> spec_fn(int) -> bool {
    |i: int| !network.spec_has_route(flows[i].src, flows[i].dst)
}

/// Whether `net` is what simulating `sims` with `sim` gives: the two agree
/// on the routes and on the ends, bandwidths and delays of the channels, and
/// the channels of `net` carry the distributions that the answers of `sim`
/// for the representatives of the clusters give.
pub open spec fn simulated<S: LinkSim>(
    sims: SimNetwork<BfsRoutes>,
    sim: &S,
    opts: BucketOpts,
    net: DelayNetwork<BfsRoutes>,
) -> bool {
    &&& sims.wf()
    &&& net.routes == sims.routes
    &&& net.topology.basics() == sims.topology.basics()
    &&& sims.delays_from(sim, opts, net.topology.channels@)
}

/// Turns a specification into a network of delay distributions.
///
/// The specification is validated, its flows are put on the network along
/// the shortest routes, the channels are clustered by `clusterer`, the
/// representative of every cluster is simulated by the simulator of `opts`,
/// and the results are folded into distributions of delay.
///
/// The run fails with the error of the specification if it is not valid,
/// with the first flow that has no way from its source to its destination
/// if there is one, and else with the error of the simulations if they
/// fail. A valid specification without flows always succeeds, and gives a
/// network without distributions.
#[verifier::rlimit(50)]
pub fn run<S: LinkSim, C: ClusteringAlgo>(spec: Spec, opts: SimOpts<S>, clusterer: C) -> (r: Result<
    DelayNetwork,
    Error,
>)
    requires
        spec.nodes@.len() < GRAPH_CAPACITY,
        2 * spec.links@.len() < GRAPH_CAPACITY,
        clusterer.ready(),
    ensures
        match r {
            Ok(net) => {
                &&& flows_valid(spec.nodes@, spec.flows@)
                &&& valid_topology(spec.nodes@, spec.links@)
                &&& net.wf()
                &&& net.routes.routes_of(&net.topology)
                &&& in_id_order(spec.nodes@, net.topology.nodes@)
                &&& net.topology.links@ == spec.links@
                &&& exists|sims: SimNetwork<BfsRoutes>|
                    #![trigger simulated(sims, &opts.link_sim, opts.bucket_opts, net)]
                    sims.workload@ == spec.flows@ && simulated(
                        sims,
                        &opts.link_sim,
                        opts.bucket_opts,
                        net,
                    )
            },
            Err(Error::InvalidSpec(e)) => spec_error(spec.nodes@, spec.links@, spec.flows@, e),
            Err(Error::Unroutable { flow, src, dst }) => {
                &&& flows_valid(spec.nodes@, spec.flows@)
                &&& valid_topology(spec.nodes@, spec.links@)
                &&& exists|net: Network<BfsRoutes>, i: int|
                    #![trigger is_first(spec.flows@.len() as int, stranded(&net, spec.flows@), i)]
                    {
                        &&& net.wf()
                        &&& net.routes.routes_of(&net.topology)
                        &&& in_id_order(spec.nodes@, net.topology.nodes@)
                        &&& net.topology.links@ == spec.links@
                        &&& is_first(spec.flows@.len() as int, stranded(&net, spec.flows@), i)
                        &&& flow == spec.flows@[i].id
                        &&& src == spec.flows@[i].src
                        &&& dst == spec.flows@[i].dst
                    }
            },
            Err(Error::SimNetwork(e)) => {
                &&& flows_valid(spec.nodes@, spec.flows@)
                &&& valid_topology(spec.nodes@, spec.links@)
                &&& e matches SimNetworkError::LinkSim(inner) && exists|sims: SimNetwork<BfsRoutes>|
                    #![trigger sims.failed_with(&opts.link_sim, inner)]
                    {
                        &&& sims.wf()
                        &&& sims.workload@ == spec.flows@
                        &&& sims.topology.links@ == spec.links@
                        &&& sims.failed_with(&opts.link_sim, inner)
                    }
            },
        },
        valid_topology(spec.nodes@, spec.links@) && spec.flows@.len() == 0 ==> (r matches Ok(net)
            && forall|e: int|
            0 <= e < net.topology.channels@.len() ==> (#[trigger] net.topology.channels@[e]).dists@.len()
                == 0),
{
    let ghost given = spec;
    let ghost bucket_opts = opts.bucket_opts;
    let ghost handed = opts;
    let valid = match spec.validate() {
        Ok(valid) => valid,
        Err(e) => {
            return Err(Error::InvalidSpec(e));
        },
    };
    let flows = valid.collect_flows();
    let mut i: usize = 0;
    while i < flows.len()
        invariant
            i <= flows@.len(),
            valid.network.wf(),
            valid.network.routes.routes_of(&valid.network.topology),
            flows@ == given.flows@,
            given == spec,
            flows_valid(given.nodes@, given.flows@),
            valid_topology(given.nodes@, given.links@),
            in_id_order(given.nodes@, valid.network.topology.nodes@),
            valid.network.topology.links@ == given.links@,
            forall|j: int|
                0 <= j < i ==> valid.network.spec_has_route(
                    (#[trigger] flows@[j]).src,
                    flows@[j].dst,
                ),
        decreases flows@.len() - i,
    {
        let flow = flows[i];
        if !valid.network.has_route(flow.src, flow.dst) {
            proof {
                assert(given.flows@[i as int] == flow);
                let test = stranded(&valid.network, given.flows@);
                assert(test(i as int));
                assert forall|j: int| 0 <= j < i implies !(#[trigger] test(j)) by {
                    assert(valid.network.spec_has_route(flows@[j].src, flows@[j].dst));
                }
                assert(is_first(given.flows@.len() as int, test, i as int));
            }
            return Err(Error::Unroutable { flow: flow.id, src: flow.src, dst: flow.dst });
        }
        i += 1;
    }
    proof {
        assert forall|j: int| 0 <= j < flows@.len() implies routed(
            &valid.network.topology,
            &valid.network.routes,
            #[trigger] flows@[j],
        ) by {
            assert(valid.network.spec_has_route(flows@[j].src, flows@[j].dst));
            lemma_routed(
                &valid.network.topology,
                &valid.network.routes,
                flows@[j].src,
                flows@[j].dst,
                spec_flow_hash(flows@[j].id),
            );
        }
    }
    let ghost topology = valid.network.topology;
    let mut sims = valid.network.into_simulations(flows);
    sims.cluster(clusterer);
    let ghost before = sims;
    proof {
        assert(sims.topology.edges() == topology.edges());
        if given.flows@.len() == 0 {
            assert forall|c: int| 0 <= c < sims.clusters@.len() implies sims.topology.channels@[(
            #[trigger] sims.clusters@[c]).representative as int].flows@.len() == 0 by {
                let rep = sims.clusters@[c].representative;
                assert(sims.clusters@[c].members@.contains(rep));
                let chan = sims.topology.channels@[rep as int];
                let none = crossing(&sims.topology, &sims.routes, sims.workload@, rep);
                assert(none =~= Seq::<Flow>::empty());
                assert(chan.wf());
                assert(is_stable_sort(none, chan.assigned@));
                none.to_multiset_ensures();
                chan.assigned@.to_multiset_ensures();
            }
            assert(all_idle(sims.clusters@, sims.topology.channels@));
        }
    }
    match sims.into_delays(opts) {
        Ok(delays) => {
            proof {
                assert(delays.topology.edges() == topology.edges());
                assert(simulated(before, &handed.link_sim, bucket_opts, delays));
                if given.flows@.len() == 0 {
                    let data = choose|data: Map<usize, Vec<FctRecord>>|
                        #![trigger found_for(before.clusters@, before.topology.channels@, data)]
                        found_for(before.clusters@, before.topology.channels@, data)
                            && before.answered_all(&handed.link_sim, data) && folded(
                            before.clusters@,
                            data,
                            bucket_opts,
                            delays.topology.channels@,
                        );
                    assert(delays.topology.channels@.len() == delays.topology.basics().len());
                    assert(before.topology.channels@.len() == before.topology.basics().len());
                    lemma_idle_empty(
                        before.clusters@,
                        before.topology.channels@,
                        data,
                        bucket_opts,
                        delays.topology.channels@,
                    );
                }
            }
            Ok(delays)
        },
        Err(e) => {
            proof {
                if e is LinkSim {
                    assert(before.failed_with(&handed.link_sim, e->LinkSim_0));
                }
            }
            Err(Error::SimNetwork(e))
        },
    }
}

} // verus!
