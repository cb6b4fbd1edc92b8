//! A network whose channels carry the flows of a workload.

use crate::cluster::{identity_clusters, is_identity, is_partition, lemma_identity_is_partition, Cluster};
use crate::network::topology::{basic_of, Topology};
use crate::network::types::{
    sorted_by_start, BasicChannel, Channel, Flow, FlowChannel, FlowId, Node, NodeId,
};
use crate::network::{edge_indices_between, hashed_path, hashed_route, routes_fit, Network};
use crate::routing::{BfsRoutes, RoutingAlgo};
use crate::seqs::{keyed, sort_by_key, stable_sorted, Keyed};
use crate::utils::{calculate_hash, spec_flow_hash};
use rustc_hash::FxHashSet;
use std::collections::HashMap;
use vstd::prelude::*;

verus! {

broadcast use vstd::std_specs::hash::group_hash_axioms;

impl Keyed for Flow {
    /// Flows are put in the order of their starts.
    open spec fn spec_key(&self) -> u64 {
        self.start.0
    }

    fn key(&self) -> u64 {
        self.start.0
    }
}

/// Whether `sorted` is `flows` put in the order of their starts, with the
/// flows of one start in the order in which they stand in `flows`.
pub open spec fn is_stable_sort(flows: Seq<Flow>, sorted: Seq<Flow>) -> bool {
    stable_sorted(flows, sorted)
}

/// The channels along which a flow goes: at every node it takes the hop that
/// the hash of its identifier picks.
pub open spec fn flow_path<C: Channel, R: RoutingAlgo>(
    topology: &Topology<C>,
    routes: &R,
    flow: Flow,
) -> Seq<usize> {
    hashed_path(topology, routes, flow.src, flow.dst, spec_flow_hash(flow.id))
}

/// Whether there is a way for the flow from its source to its destination.
pub open spec fn routed<C: Channel, R: RoutingAlgo>(
    topology: &Topology<C>,
    routes: &R,
    flow: Flow,
) -> bool {
    hashed_route(
        routes,
        flow.src,
        flow.dst,
        spec_flow_hash(flow.id),
        topology.nodes@.len(),
    ) is Some
}

/// The flow `flow`, once for every time that `path` goes along the channel
/// `e`.
pub open spec fn copies(path: Seq<usize>, e: usize, flow: Flow) -> Seq<Flow>
    decreases path.len(),
{
    if path.len() == 0 {
        Seq::empty()
    } else if path.last() == e {
        copies(path.drop_last(), e, flow).push(flow)
    } else {
        copies(path.drop_last(), e, flow)
    }
}

/// The flows of `flows` that go along the channel `e`, in the order of
/// `flows`.
pub open spec fn crossing<C: Channel, R: RoutingAlgo>(
    topology: &Topology<C>,
    routes: &R,
    flows: Seq<Flow>,
    e: usize,
) -> Seq<Flow>
    decreases flows.len(),
{
    if flows.len() == 0 {
        Seq::empty()
    } else {
        crossing(topology, routes, flows.drop_last(), e) + copies(
            flow_path(topology, routes, flows.last()),
            e,
            flows.last(),
        )
    }
}

/// The flows of `flows` by their identifiers; of two flows with one
/// identifier, the later one.
pub open spec fn flows_by_id(flows: Seq<Flow>) -> Map<usize, Flow>
    decreases flows.len(),
{
    if flows.len() == 0 {
        Map::empty()
    } else {
        flows_by_id(flows.drop_last()).insert(flows.last().id.0, flows.last())
    }
}

/// A network in which every channel carries the flows that cross it. Its
/// channels can be simulated one by one, and clustered to simulate fewer of
/// them.
pub struct SimNetwork<R = BfsRoutes> {
    pub topology: Topology<FlowChannel>,
    pub routes: R,
    /// The clusters of the channels.
    pub clusters: Vec<Cluster>,
    /// The flows of the workload by their identifiers.
    pub flows: HashMap<usize, Flow>,
    /// For every channel, the identifiers of the flows that the simulator
    /// sends along it, where the flows were traced as the simulator routes
    /// them.
    pub channel_to_flowid_map: Option<Vec<FxHashSet<usize>>>,
    /// For every path that the simulator sends flows along, the identifiers
    /// of those flows, where the flows were traced as the simulator routes
    /// them.
    pub path_to_flowid_map: Option<Vec<FlowPath>>,
    /// The workload.
    pub workload: Ghost<Seq<Flow>>,
}

/// A path together with the flows that go along it.
pub struct FlowPath {
    /// The source of the flows.
    pub src: NodeId,
    /// The destination of the flows.
    pub dst: NodeId,
    /// The indices of the channels of the path.
    pub edges: Vec<usize>,
    /// The identifiers of the flows.
    pub flows: FxHashSet<usize>,
}

impl<R: RoutingAlgo> SimNetwork<R> {
    /// The topology is well formed, the routes lead along its channels, every
    /// channel carries the flows of the workload that cross it, in the order
    /// of their starts, and the clusters part the channels.
    pub open spec fn wf(&self) -> bool {
        &&& self.topology.wf()
        &&& routes_fit(&self.routes, &self.topology)
        &&& self.flows@ == flows_by_id(self.workload@)
        &&& is_partition(self.clusters@, self.topology.channels@.len())
        &&& forall|e: int|
            0 <= e < self.topology.channels@.len() ==> {
                &&& (#[trigger] self.topology.channels@[e]).wf()
                &&& is_stable_sort(
                    crossing(&self.topology, &self.routes, self.workload@, e as usize),
                    self.topology.channels@[e].assigned@,
                )
            }
    }
}

/// What a clustering algorithm is shown of a network: its nodes and links,
/// its channels with the flows that they carry, the flows by their
/// identifiers, and the clusters that it has.
pub struct Shown {
    pub nodes: Seq<Node>,
    pub links: Seq<crate::network::types::Link>,
    pub channels: Seq<FlowChannel>,
    pub flows: Map<usize, Flow>,
    pub clusters: Seq<Cluster>,
}

impl<R: RoutingAlgo> SimNetwork<R> {
    /// What a clustering algorithm is shown of the network.
    pub open spec fn shown(&self) -> Shown {
        Shown {
            nodes: self.topology.nodes@,
            links: self.topology.links@,
            channels: self.topology.channels@,
            flows: self.flows@,
            clusters: self.clusters@,
        }
    }

    /// Clusters the channels of the network with the given algorithm: the
    /// clusters of the network become those that the algorithm gives for
    /// the network as it is.
    pub fn cluster<A: crate::cluster::ClusteringAlgo>(&mut self, algorithm: A)
        requires
            old(self).wf(),
            algorithm.ready(),
        ensures
            final(self).wf(),
            algorithm.gives(old(self).shown(), final(self).clusters@),
            final(self).topology == old(self).topology,
            final(self).routes == old(self).routes,
            final(self).flows == old(self).flows,
            final(self).workload == old(self).workload,
            final(self).channel_to_flowid_map == old(self).channel_to_flowid_map,
            final(self).path_to_flowid_map == old(self).path_to_flowid_map,
    {
        let clusters = algorithm.cluster(self);
        self.clusters = clusters;
    }

    /// The clusters of the network.
    pub fn clusters(&self) -> (r: &[Cluster])
        ensures
            r@ == self.clusters@,
    {
        self.clusters.as_slice()
    }

    /// Sets the clusters of the network, which must part its channels.
    pub fn set_clusters(&mut self, clusters: Vec<Cluster>)
        requires
            old(self).wf(),
            is_partition(clusters@, old(self).topology.channels@.len()),
        ensures
            final(self).wf(),
            final(self).clusters == clusters,
            final(self).topology == old(self).topology,
            final(self).routes == old(self).routes,
            final(self).flows == old(self).flows,
            final(self).workload == old(self).workload,
    {
        self.clusters = clusters;
    }

    /// The nodes of the network, in the order of their identifiers.
    pub fn nodes(&self) -> (r: &[Node])
        ensures
            r@ == self.topology.nodes@,
    {
        self.topology.nodes.as_slice()
    }

    /// The links of the network, as they were given.
    pub fn links(&self) -> (r: &[crate::network::types::Link])
        ensures
            r@ == self.topology.links@,
    {
        self.topology.links.as_slice()
    }

    /// The channels of the network, in the order of their indices.
    pub fn channels(&self) -> (r: &[FlowChannel])
        ensures
            r@ == self.topology.channels@,
    {
        self.topology.channels.as_slice()
    }

    /// The indices of the channels of the network.
    pub fn edge_indices(&self) -> (r: Vec<usize>)
        ensures
            r@ == Seq::new(self.topology.channels@.len(), |e: int| e as usize),
    {
        let mut out: Vec<usize> = Vec::new();
        let mut e: usize = 0;
        while e < self.topology.channels.len()
            invariant
                e <= self.topology.channels@.len(),
                out@ == Seq::new(e as nat, |e: int| e as usize),
            decreases self.topology.channels@.len() - e,
        {
            out.push(e);
            proof {
                assert(out@ =~= Seq::new((e + 1) as nat, |e: int| e as usize));
            }
            e += 1;
        }
        out
    }

    /// The flows by channel and by path, where the flows were traced as the
    /// simulator routes them.
    pub fn get_routes(&self) -> (r: Option<(&Vec<FxHashSet<usize>>, &Vec<FlowPath>)>)
        ensures
            match r {
                Some((channels, paths)) => self.channel_to_flowid_map == Some(*channels)
                    && self.path_to_flowid_map == Some(*paths),
                None => self.channel_to_flowid_map is None || self.path_to_flowid_map is None,
            },
    {
        match &self.channel_to_flowid_map {
            Some(channels) => match &self.path_to_flowid_map {
                Some(paths) => Some((channels, paths)),
                None => None,
            },
            None => None,
        }
    }

    /// The number of clusters. At first every channel is in a cluster of its
    /// own.
    pub fn nr_clusters(&self) -> (r: usize)
        ensures
            r == self.clusters@.len(),
    {
        self.clusters.len()
    }

    /// The channel with the given index, if there is one.
    pub fn edge(&self, idx: usize) -> (r: Option<&FlowChannel>)
        ensures
            match r {
                Some(chan) => idx < self.topology.channels@.len() && *chan
                    == self.topology.channels@[idx as int],
                None => idx >= self.topology.channels@.len(),
            },
    {
        if idx < self.topology.channels.len() {
            Some(&self.topology.channels[idx])
        } else {
            None
        }
    }

    /// The node with the given identifier, if there is one.
    pub fn node(&self, id: NodeId) -> (r: Option<&Node>)
        ensures
            match r {
                Some(node) => id.0 < self.topology.nodes@.len() && *node
                    == self.topology.nodes@[id.0 as int],
                None => id.0 >= self.topology.nodes@.len(),
            },
    {
        if id.0 < self.topology.nodes.len() {
            Some(&self.topology.nodes[id.0])
        } else {
            None
        }
    }

    /// The index of the channel from `a` to `b`, if there is one.
    pub fn find_edge(&self, a: NodeId, b: NodeId) -> (r: Option<usize>)
        requires
            self.wf(),
        ensures
            match r {
                Some(e) => e < self.topology.edges().len() && self.topology.edges()[e as int] == (
                    a.0,
                    b.0,
                ),
                None => !crate::routing::adjacent(self.topology.edges(), a.0, b.0),
            },
    {
        self.topology.find_edge(a, b)
    }

    /// The flows that cross the channel `edge`, in the order of their
    /// starts; `None` if there is no such channel.
    #[verifier::rlimit(50)]
    pub fn flows_on(&self, edge: usize) -> (r: Option<Vec<Flow>>)
        requires
            self.wf(),
        ensures
            match r {
                Some(flows) => {
                    &&& edge < self.topology.channels@.len()
                    &&& flows@.len() == self.topology.channels@[edge as int].flows@.len()
                    &&& forall|i: int|
                        0 <= i < flows@.len() ==> #[trigger] self.flows@.contains_key(
                            self.topology.channels@[edge as int].flows@[i].0,
                        )
                    &&& forall|i: int|
                        0 <= i < flows@.len() ==> (#[trigger] flows@[i])
                            == self.flows@[self.topology.channels@[edge as int].flows@[i].0]
                },
                None => edge >= self.topology.channels@.len(),
            },
    {
        if edge >= self.topology.channels.len() {
            return None;
        }
        let chan = &self.topology.channels[edge];
        let mut out: Vec<Flow> = Vec::new();
        let mut i: usize = 0;
        while i < chan.flows.len()
            invariant
                i <= chan.flows@.len(),
                self.wf(),
                edge < self.topology.channels@.len(),
                *chan == self.topology.channels@[edge as int],
                out@.len() == i,
                forall|j: int| 0 <= j < i ==> #[trigger] self.flows@.contains_key(chan.flows@[j].0),
                forall|j: int| 0 <= j < i ==> (#[trigger] out@[j]) == self.flows@[chan.flows@[j].0],
            decreases chan.flows@.len() - i,
        {
            let id = chan.flows[i];
            proof {
                self.lemma_flows_known(edge as int, i as int);
            }
            let key = id.0;
            match self.flows.get(&key) {
                Some(flow) => {
                    out.push(*flow);
                },
                None => {},
            }
            i += 1;
        }
        Some(out)
    }

    /// Every flow that a channel names is a flow of the workload, and the
    /// network holds a flow under its identifier.
    pub proof fn lemma_flows_known(&self, e: int, i: int)
        requires
            self.wf(),
            0 <= e < self.topology.channels@.len(),
            0 <= i < self.topology.channels@[e].flows@.len(),
        ensures
            self.flows@.contains_key(self.topology.channels@[e].flows@[i].0),
    {
        broadcast use vstd::seq_lib::to_multiset_contains;

        let chan = self.topology.channels@[e];
        let flow = chan.assigned@[i];
        assert(chan.flows@[i] == flow.id);
        let all = crossing(&self.topology, &self.routes, self.workload@, e as usize);
        assert(chan.assigned@.contains(flow));
        assert(chan.assigned@.to_multiset().count(flow) > 0);
        assert(all.contains(flow));
        lemma_crossing_within(&self.topology, &self.routes, self.workload@, e as usize, flow);
        lemma_by_id_known(self.workload@, flow);
    }

    /// A channel carries a flow exactly if the flow belongs to the workload
    /// and its path goes along the channel.
    pub proof fn lemma_carried(&self, e: usize, flow: Flow)
        requires
            self.wf(),
            e < self.topology.channels@.len(),
        ensures
            self.topology.channels@[e as int].assigned@.contains(flow) <==> self.workload@.contains(
                flow,
            ) && flow_path(&self.topology, &self.routes, flow).contains(e),
    {
        broadcast use vstd::seq_lib::to_multiset_contains;

        let chan = self.topology.channels@[e as int];
        let all = crossing(&self.topology, &self.routes, self.workload@, e);
        assert(chan.assigned@.to_multiset().count(flow) == all.to_multiset().count(flow));
        lemma_crossing_contains(&self.topology, &self.routes, self.workload@, e, flow);
    }

    /// On every channel, the flows stand in the order of their starts, the
    /// bytes are the sum of their sizes, as far as 64 bits hold it, and the
    /// sources and destinations of the flows are among those of the channel.
    pub proof fn lemma_channel_counters(&self, e: usize)
        requires
            self.wf(),
            e < self.topology.channels@.len(),
        ensures
            sorted_by_start(self.topology.channels@[e as int].assigned@),
            self.topology.channels@[e as int].flows@
                == self.topology.channels@[e as int].assigned@.map_values(|f: Flow| f.id),
            self.topology.channels@[e as int].nr_bytes.0 == crate::units::saturate(
                crate::network::types::total_size(self.topology.channels@[e as int].assigned@),
            ),
            forall|i: int|
                0 <= i < self.topology.channels@[e as int].assigned@.len() ==> {
                    &&& self.topology.channels@[e as int].flow_srcs@.contains(
                        (#[trigger] self.topology.channels@[e as int].assigned@[i]).src.0,
                    )
                    &&& self.topology.channels@[e as int].flow_dsts@.contains(
                        self.topology.channels@[e as int].assigned@[i].dst.0,
                    )
                },
    {
        let chan = self.topology.channels@[e as int];
        let flows = chan.assigned@;
        assert forall|i: int| 0 <= i < flows.len() implies {
            &&& chan.flow_srcs@.contains((#[trigger] flows[i]).src.0)
            &&& chan.flow_dsts@.contains(flows[i].dst.0)
        } by {
            let srcs = flows.map_values(|f: Flow| f.src.0);
            let dsts = flows.map_values(|f: Flow| f.dst.0);
            assert(srcs[i] == flows[i].src.0);
            assert(dsts[i] == flows[i].dst.0);
            assert(srcs.contains(flows[i].src.0));
            assert(dsts.contains(flows[i].dst.0));
        }
    }

    /// The time between the first and the last start of a flow on the
    /// channel `eidx`; `None` if there is no such channel.
    pub fn duration_of(&self, eidx: usize) -> (r: Option<crate::units::Nanosecs>)
        requires
            self.wf(),
        ensures
            match r {
                Some(d) => eidx < self.topology.channels@.len() && d.0 == span_of(
                    self.topology.channels@[eidx as int].assigned@,
                ),
                None => eidx >= self.topology.channels@.len(),
            },
    {
        if eidx < self.topology.channels.len() {
            Some(self.topology.channels[eidx].duration())
        } else {
            None
        }
    }
}

/// The time between the first and the last start among `flows`, zero where
/// there is no flow.
pub open spec fn span_of(flows: Seq<Flow>) -> int {
    if flows.len() == 0 {
        0
    } else {
        crate::network::types::latest_start(flows) - crate::network::types::earliest_start(flows)
    }
}

/// The copies of a flow for a channel are there exactly if the path goes
/// along the channel.
pub proof fn lemma_copies_some(path: Seq<usize>, e: usize, flow: Flow)
    ensures
        copies(path, e, flow).len() > 0 <==> path.contains(e),
        copies(path, e, flow).len() > 0 ==> copies(path, e, flow).contains(flow),
    decreases path.len(),
{
    if path.len() > 0 {
        lemma_copies_some(path.drop_last(), e, flow);
        let rest = copies(path.drop_last(), e, flow);
        let all = copies(path, e, flow);
        if path.last() == e {
            assert(path[path.len() - 1] == e);
            assert(all[all.len() - 1] == flow);
        } else {
            if path.contains(e) {
                let i = choose|i: int| 0 <= i < path.len() && path[i] == e;
                assert(path.drop_last()[i] == e);
            }
            if path.drop_last().contains(e) {
                let i = choose|i: int| 0 <= i < path.drop_last().len() && path.drop_last()[i] == e;
                assert(path[i] == e);
            }
        }
    }
}

/// A flow is among the flows that cross a channel exactly if it is a flow of
/// the workload and its path goes along the channel.
#[verifier::rlimit(50)]
pub proof fn lemma_crossing_contains<C: Channel, R: RoutingAlgo>(
    topology: &Topology<C>,
    routes: &R,
    flows: Seq<Flow>,
    e: usize,
    flow: Flow,
)
    ensures
        crossing(topology, routes, flows, e).contains(flow) <==> flows.contains(flow) && flow_path(
            topology,
            routes,
            flow,
        ).contains(e),
    decreases flows.len(),
{
    if flows.len() > 0 {
        let rest = flows.drop_last();
        let last = flows.last();
        lemma_crossing_contains(topology, routes, rest, e, flow);
        let head = crossing(topology, routes, rest, e);
        let tail = copies(flow_path(topology, routes, last), e, last);
        let all = crossing(topology, routes, flows, e);
        lemma_copies_some(flow_path(topology, routes, last), e, last);
        if all.contains(flow) {
            let i = choose|i: int| 0 <= i < all.len() && all[i] == flow;
            if i < head.len() {
                assert(head[i] == flow);
                let j = choose|j: int| 0 <= j < rest.len() && rest[j] == flow;
                assert(flows[j] == flow);
            } else {
                assert(tail[i - head.len()] == flow);
                lemma_copies_same(flow_path(topology, routes, last), e, last, flow);
                assert(flows[flows.len() - 1] == flow);
            }
        }
        if flows.contains(flow) && flow_path(topology, routes, flow).contains(e) {
            if last == flow {
                let i = choose|i: int| 0 <= i < tail.len() && tail[i] == flow;
                assert(all[head.len() + i] == flow);
            } else {
                let j = choose|j: int| 0 <= j < flows.len() && flows[j] == flow;
                assert(rest[j] == flow);
                let i = choose|i: int| 0 <= i < head.len() && head[i] == flow;
                assert(all[i] == flow);
            }
        }
    }
}

/// The flows that cross a channel are flows of the workload.
pub proof fn lemma_crossing_within<C: Channel, R: RoutingAlgo>(
    topology: &Topology<C>,
    routes: &R,
    flows: Seq<Flow>,
    e: usize,
    flow: Flow,
)
    requires
        crossing(topology, routes, flows, e).contains(flow),
    ensures
        flows.contains(flow),
    decreases flows.len(),
{
    if flows.len() > 0 {
        let head = crossing(topology, routes, flows.drop_last(), e);
        let tail = copies(flow_path(topology, routes, flows.last()), e, flows.last());
        let all = crossing(topology, routes, flows, e);
        let i = choose|i: int| 0 <= i < all.len() && all[i] == flow;
        if i < head.len() {
            assert(head[i] == flow);
            lemma_crossing_within(topology, routes, flows.drop_last(), e, flow);
            let j = choose|j: int| 0 <= j < flows.drop_last().len() && flows.drop_last()[j] == flow;
            assert(flows[j] == flow);
        } else {
            assert(tail[i - head.len()] == flow);
            lemma_copies_same(flow_path(topology, routes, flows.last()), e, flows.last(), flow);
            assert(flows[flows.len() - 1] == flow);
        }
    }
}

/// The copies of a flow hold nothing but that flow.
pub proof fn lemma_copies_same(path: Seq<usize>, e: usize, flow: Flow, found: Flow)
    requires
        copies(path, e, flow).contains(found),
    ensures
        found == flow,
    decreases path.len(),
{
    if path.len() > 0 {
        let all = copies(path, e, flow);
        let i = choose|i: int| 0 <= i < all.len() && all[i] == found;
        let rest = copies(path.drop_last(), e, flow);
        if i < rest.len() {
            assert(rest[i] == found);
            lemma_copies_same(path.drop_last(), e, flow, found);
        }
    }
}

/// Every flow of a workload has its identifier among the flows by
/// identifier.
pub proof fn lemma_by_id_known(flows: Seq<Flow>, flow: Flow)
    requires
        flows.contains(flow),
    ensures
        flows_by_id(flows).contains_key(flow.id.0),
    decreases flows.len(),
{
    if flows.len() > 0 {
        if flows.last() != flow {
            let j = choose|j: int| 0 <= j < flows.len() && flows[j] == flow;
            assert(flows.drop_last()[j] == flow);
            lemma_by_id_known(flows.drop_last(), flow);
        }
    }
}

impl<R: RoutingAlgo> Network<R> {
    /// Puts a workload on the network: every flow goes along the channels of
    /// the way that the hash of its identifier picks, and every channel
    /// collects the flows that cross it in the order of their starts. The
    /// channels are clustered one by one.
    ///
    /// Every flow must have a way from its source to its destination.
    #[verifier::rlimit(50)]
    pub fn into_simulations(self, flows: Vec<Flow>) -> (r: SimNetwork<R>)
        requires
            self.wf(),
            forall|i: int|
                0 <= i < flows@.len() ==> routed(&self.topology, &self.routes, #[trigger] flows@[i]),
        ensures
            r.wf(),
            r.workload@ == flows@,
            r.routes == self.routes,
            r.topology.nodes@ == self.topology.nodes@,
            r.topology.links@ == self.topology.links@,
            r.topology.basics() == self.topology.basics(),
            is_identity(r.clusters@, r.topology.channels@.len()),
    {
        let m = self.topology.channels.len();
        let mut per_edge: Vec<Vec<Flow>> = Vec::new();
        let mut e: usize = 0;
        while e < m
            invariant
                e <= m,
                per_edge@.len() == e,
                forall|f: int| 0 <= f < e ==> (#[trigger] per_edge@[f])@ == Seq::<Flow>::empty(),
            decreases m - e,
        {
            per_edge.push(Vec::new());
            e += 1;
        }
        let mut by_id: HashMap<usize, Flow> = HashMap::new();
        let mut i: usize = 0;
        while i < flows.len()
            invariant
                i <= flows@.len(),
                self.wf(),
                m == self.topology.channels@.len(),
                per_edge@.len() == m,
                by_id@ == flows_by_id(flows@.take(i as int)),
                forall|f: int|
                    0 <= f < m ==> (#[trigger] per_edge@[f])@ == crossing(
                        &self.topology,
                        &self.routes,
                        flows@.take(i as int),
                        f as usize,
                    ),
            decreases flows@.len() - i,
        {
            let flow = flows[i];
            let hash = calculate_hash(&flow.id);
            let path = edge_indices_between(
                &self.topology,
                &self.routes,
                flow.src,
                flow.dst,
                hash,
            );
            let ghost before = flows@.take(i as int);
            proof {
                let route = hashed_route(
                    &self.routes,
                    flow.src,
                    flow.dst,
                    hash,
                    self.topology.nodes@.len(),
                );
                lemma_path_in_range(&self.topology, &self.routes, flow.src, flow.dst, hash);
            }
            let mut j: usize = 0;
            while j < path.len()
                invariant
                    j <= path@.len(),
                    per_edge@.len() == m,
                    forall|a: int| 0 <= a < path@.len() ==> (#[trigger] path@[a]) < m,
                    forall|f: int|
                        0 <= f < m ==> (#[trigger] per_edge@[f])@ == crossing(
                            &self.topology,
                            &self.routes,
                            before,
                            f as usize,
                        ) + copies(path@.take(j as int), f as usize, flow),
                decreases path@.len() - j,
            {
                let edge = path[j];
                let ghost old_lists = per_edge@;
                per_edge[edge].push(flow);
                proof {
                    assert(path@.take(j + 1).drop_last() =~= path@.take(j as int));
                    assert forall|f: int| 0 <= f < m implies (#[trigger] per_edge@[f])@ == crossing(
                        &self.topology,
                        &self.routes,
                        before,
                        f as usize,
                    ) + copies(path@.take(j + 1), f as usize, flow) by {
                        if f != edge {
                            assert(per_edge@[f] == old_lists[f]);
                        }
                    }
                }
                j += 1;
            }
            by_id.insert(flow.id.0, flow);
            proof {
                assert(path@.take(j as int) =~= path@);
                assert(flows@.take(i + 1).drop_last() =~= before);
                assert(flows@.take(i + 1).last() == flow);
            }
            i += 1;
        }
        proof {
            assert(flows@.take(i as int) =~= flows@);
        }
        let Network { topology, routes } = self;
        let Topology { graph, id2idx, nodes, channels: basics, links } = topology;
        let ghost old_topology = Topology { graph, id2idx, nodes, channels: basics, links };
        let mut channels: Vec<FlowChannel> = Vec::new();
        let mut e: usize = 0;
        while e < m
            invariant
                e <= m,
                m == basics@.len(),
                per_edge@.len() == m,
                channels@.len() == e,
                forall|f: int|
                    0 <= f < e ==> {
                        &&& (#[trigger] channels@[f]).wf()
                        &&& basic_of(channels@[f]) == basics@[f]
                        &&& is_stable_sort(
                            crossing(&old_topology, &routes, flows@, f as usize),
                            channels@[f].assigned@,
                        )
                    },
                forall|f: int|
                    e <= f < m ==> (#[trigger] per_edge@[f])@ == crossing(
                        &old_topology,
                        &routes,
                        flows@,
                        f as usize,
                    ),
            decreases m - e,
        {
            let mut chan = FlowChannel::new_from(&basics[e]);
            let ghost unsorted = per_edge@[e as int]@;
            let ghost lists = per_edge@;
            sort_by_key(&mut per_edge[e]);
            proof {
                assert forall|f: int| e < f < m implies (#[trigger] per_edge@[f])@ == crossing(
                    &old_topology,
                    &routes,
                    flows@,
                    f as usize,
                ) by {
                    assert(per_edge@[f] == lists[f]);
                }
            }
            let list = &per_edge[e];
            let mut k: usize = 0;
            proof {
                assert(list@.take(0) =~= Seq::<Flow>::empty());
            }
            while k < list.len()
                invariant
                    k <= list@.len(),
                    e < basics@.len(),
                    chan.wf(),
                    chan.assigned@ == list@.take(k as int),
                    basic_of(chan) == basics@[e as int],
                decreases list@.len() - k,
            {
                chan.push_flow(&list[k]);
                proof {
                    assert(list@.take(k + 1) =~= list@.take(k as int).push(list@[k as int]));
                }
                k += 1;
            }
            proof {
                assert(list@.take(k as int) =~= list@);
            }
            channels.push(chan);
            e += 1;
        }
        let clusters = identity_clusters(m);
        let sim_topology = Topology { graph, id2idx, nodes, channels, links };
        proof {
            assert(sim_topology.basics() =~= old_topology.basics()) by {
                assert forall|f: int| 0 <= f < m implies sim_topology.basics()[f]
                    == old_topology.basics()[f] by {
                    assert(basic_of(channels@[f]) == basics@[f]);
                }
            }
            lemma_identity_is_partition(clusters@, m as nat);
            assert forall|f: usize| f < m implies #[trigger] crossing(
                &sim_topology,
                &routes,
                flows@,
                f,
            ) == crossing(&old_topology, &routes, flows@, f) by {
                lemma_crossing_same(&sim_topology, &old_topology, &routes, flows@, f);
            }
        }
        SimNetwork {
            topology: sim_topology,
            routes,
            clusters,
            flows: by_id,
            channel_to_flowid_map: None,
            path_to_flowid_map: None,
            workload: Ghost(flows@),
        }
    }
}

/// The channels of a way that a hash picks are channels of the topology.
pub proof fn lemma_path_in_range<C: Channel, R: RoutingAlgo>(
    topology: &Topology<C>,
    routes: &R,
    src: NodeId,
    dst: NodeId,
    hash: u64,
)
    requires
        topology.wf(),
        routes_fit(routes, topology),
    ensures
        forall|a: int|
            0 <= a < hashed_path(topology, routes, src, dst, hash).len() ==> (
            #[trigger] hashed_path(topology, routes, src, dst, hash)[a]) < topology.channels@.len(),
{
    let n = topology.nodes@.len();
    match hashed_route(routes, src, dst, hash, n) {
        None => {},
        Some(visited) => {
            lemma_route_adjacent(routes, topology, src, dst, hash, n);
            topology.lemma_edges();
            let edges = topology.edges();
            assert forall|a: int| 0 <= a < visited.len() implies (#[trigger] crate::network::edges_along(
                edges,
                src,
                visited,
            )[a]) < topology.channels@.len() by {
                let from = if a == 0 {
                    src.0
                } else {
                    visited[a - 1].0
                };
                assert(crate::routing::adjacent(edges, from, visited[a].0));
                let w = choose|w: int| 0 <= w < edges.len() && edges[w] == (from, visited[a].0);
                assert((w as usize) < edges.len() && edges[w as usize as int] == (
                    from,
                    visited[a].0,
                ));
            }
        },
    }
}

/// Every step of a way that a hash picks leads along a channel.
pub proof fn lemma_route_adjacent<C: Channel, R: RoutingAlgo>(
    routes: &R,
    topology: &Topology<C>,
    src: NodeId,
    dst: NodeId,
    hash: u64,
    fuel: nat,
)
    requires
        routes_fit(routes, topology),
        hashed_route(routes, src, dst, hash, fuel) is Some,
    ensures
        forall|a: int|
            0 <= a < hashed_route(routes, src, dst, hash, fuel)->0.len()
                ==> crate::routing::adjacent(
                topology.edges(),
                if a == 0 {
                    src.0
                } else {
                    hashed_route(routes, src, dst, hash, fuel)->0[a - 1].0
                },
                (#[trigger] hashed_route(routes, src, dst, hash, fuel)->0[a]).0,
            ),
    decreases fuel,
{
    if src != dst && fuel > 0 {
        let hops = routes.hops(src, dst)->0;
        let idx = hash as int % hops.len() as int;
        let next = hops[idx];
        assert(routes.hops(src, dst)->0[idx] == next);
        lemma_route_adjacent(routes, topology, next, dst, hash, (fuel - 1) as nat);
        let rest = hashed_route(routes, next, dst, hash, (fuel - 1) as nat)->0;
        let all = hashed_route(routes, src, dst, hash, fuel)->0;
        assert(all == seq![next] + rest);
        assert forall|a: int| 0 <= a < all.len() implies crate::routing::adjacent(
            topology.edges(),
            if a == 0 {
                src.0
            } else {
                all[a - 1].0
            },
            (#[trigger] all[a]).0,
        ) by {
            if a > 0 {
                assert(all[a] == rest[a - 1]);
                if a > 1 {
                    assert(all[a - 1] == rest[a - 2]);
                }
            }
        }
    }
}

/// Which flows cross a channel depends on the nodes and edges of a topology
/// alone, not on the kind of its channels.
pub proof fn lemma_crossing_same<C: Channel, D: Channel, R: RoutingAlgo>(
    one: &Topology<C>,
    other: &Topology<D>,
    routes: &R,
    flows: Seq<Flow>,
    e: usize,
)
    requires
        one.edges() == other.edges(),
        one.nodes@.len() == other.nodes@.len(),
    ensures
        crossing(one, routes, flows, e) == crossing(other, routes, flows, e),
    decreases flows.len(),
{
    if flows.len() > 0 {
        lemma_crossing_same(one, other, routes, flows.drop_last(), e);
    }
}

} // verus!
