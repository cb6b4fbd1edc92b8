//! Handing the link-level simulations out to workers: which worker gets
//! which channels, what a worker is sent, and what it does with it.

use crate::fxhash::{fx_set_insert, fx_set_new};
use crate::linksim::{LinkSim, LinkSimDesc, LinkSimError, LinkSimSpec, SpecView};
use crate::network::sim::SimNetwork;
use crate::network::simulate::{SimNetworkError, NO_BOTTLENECK};
use crate::network::types::{FctRecord, Flow, FlowId};
use crate::random::{seeded_rng, shuffle};
use crate::routing::RoutingAlgo;
use rustc_hash::FxHashSet;
use std::collections::HashMap;
use vstd::prelude::*;

verus! {

broadcast use vstd::std_specs::hash::group_hash_axioms;

/// What a worker is sent.
#[derive(Debug)]
pub struct WorkerParams {
    /// The name of the link-level simulator and its configuration.
    pub link_sim: (String, String),
    /// The descriptors of the simulations to run.
    pub descs: Vec<LinkSimDesc>,
    /// The flows that the descriptors name.
    pub flows: Vec<Flow>,
}

/// One list after the other.
pub open spec fn flattened(lists: Seq<Vec<usize>>) -> Seq<usize>
    decreases lists.len(),
{
    if lists.len() == 0 {
        Seq::empty()
    } else {
        flattened(lists.drop_last()) + lists.last()@
    }
}

/// The identifiers of the flows that the descriptors name, one descriptor
/// after the other.
pub open spec fn named_flows(descs: Seq<LinkSimDesc>) -> Seq<usize>
    decreases descs.len(),
{
    if descs.len() == 0 {
        Seq::empty()
    } else {
        named_flows(descs.drop_last()) + descs.last().flows@.map_values(|id: FlowId| id.0)
    }
}

/// The number of channels that a worker gets at most: the channels are
/// shared out evenly.
pub open spec fn share(nr_edges: int, nr_workers: int) -> int {
    (nr_edges + nr_workers - 1) / nr_workers
}

/// The share of a worker is the number of channels over the number of
/// workers, rounded up, and all shares together hold all channels.
pub proof fn lemma_share(nr_edges: int, nr_workers: int)
    requires
        nr_edges >= 0,
        nr_workers > 0,
    ensures
        share(nr_edges, nr_workers) == if nr_edges % nr_workers == 0 {
            nr_edges / nr_workers
        } else {
            nr_edges / nr_workers + 1
        },
        share(nr_edges, nr_workers) * nr_workers >= nr_edges,
        share(nr_edges, nr_workers) >= 0,
{
    let q = nr_edges / nr_workers;
    let r = nr_edges % nr_workers;
    vstd::arithmetic::div_mod::lemma_fundamental_div_mod(nr_edges, nr_workers);
    assert(nr_edges == nr_workers * q + r);
    if r == 0 {
        vstd::arithmetic::div_mod::lemma_fundamental_div_mod_converse(
            nr_edges + nr_workers - 1,
            nr_workers,
            q,
            nr_workers - 1,
        );
        assert(q * nr_workers == nr_workers * q) by (nonlinear_arith);
    } else {
        assert(nr_workers * (q + 1) == nr_workers * q + nr_workers) by (nonlinear_arith);
        vstd::arithmetic::div_mod::lemma_fundamental_div_mod_converse(
            nr_edges + nr_workers - 1,
            nr_workers,
            q + 1,
            r - 1,
        );
        assert((q + 1) * nr_workers == nr_workers * q + nr_workers) by (nonlinear_arith);
    }
    vstd::arithmetic::div_mod::lemma_div_pos_is_pos(nr_edges, nr_workers);
}

impl<R: RoutingAlgo> SimNetwork<R> {
    /// The test for an index to be that of a channel that carries flows.
    pub open spec fn loaded(&self) -> spec_fn(usize) -> bool {
        |e: usize| e < self.topology.channels@.len() && self.topology.channels@[e as int].flows@.len() > 0
    }

    /// Shares the representatives of the clusters out to `nr_workers`
    /// workers: they are put in a random order and cut into as many runs of
    /// equal length as there are workers, of which the last ones may be
    /// shorter or empty.
    #[verifier::rlimit(50)]
    pub fn assign_work_randomly(&self, nr_workers: usize) -> (r: Vec<Vec<usize>>)
        requires
            nr_workers > 0,
        ensures
            r@.len() == nr_workers,
            flattened(r@).to_multiset() == self.clusters@.map_values(
                |c: crate::cluster::Cluster| c.representative,
            ).to_multiset(),
            forall|w: int|
                0 <= w < r@.len() ==> (#[trigger] r@[w])@.len() <= share(
                    self.clusters@.len() as int,
                    nr_workers as int,
                ),
    {
        let mut edges: Vec<usize> = Vec::new();
        let mut c: usize = 0;
        let ghost reps = self.clusters@.map_values(|c: crate::cluster::Cluster| c.representative);
        while c < self.clusters.len()
            invariant
                c <= self.clusters@.len(),
                reps == self.clusters@.map_values(|c: crate::cluster::Cluster| c.representative),
                edges@ == reps.take(c as int),
            decreases self.clusters@.len() - c,
        {
            edges.push(self.clusters[c].representative());
            proof {
                assert(reps.take(c + 1) =~= reps.take(c as int).push(reps[c as int]));
            }
            c += 1;
        }
        proof {
            assert(reps.take(c as int) =~= reps);
        }
        let mut rng = seeded_rng(0);
        shuffle(&mut edges, &mut rng);
        let len = edges.len();
        proof {
            broadcast use vstd::seq_lib::to_multiset_len;

            assert(edges@.len() == edges@.to_multiset().len());
            assert(reps.len() == reps.to_multiset().len());
            if len % nr_workers != 0 {
                assert(len > 0 && nr_workers >= 2) by {
                    if len == 0 {
                        vstd::arithmetic::div_mod::lemma_small_mod(0, nr_workers as nat);
                    }
                    if nr_workers == 1 {
                        vstd::arithmetic::div_mod::lemma_mod_self_0(1);
                        assert(len % 1 == 0);
                    }
                }
                assert(len / nr_workers < len) by (nonlinear_arith)
                    requires
                        len > 0,
                        nr_workers >= 2,
                ;
            }
        }
        let chunk: usize = if len % nr_workers == 0 {
            len / nr_workers
        } else {
            len / nr_workers + 1
        };
        proof {
            lemma_share(len as int, nr_workers as int);
        }
        let mut out: Vec<Vec<usize>> = Vec::new();
        let mut from: usize = 0;
        let mut w: usize = 0;
        proof {
            assert(edges@.take(0) =~= flattened(out@));
        }
        while w < nr_workers
            invariant
                w <= nr_workers,
                len == edges@.len(),
                from <= len,
                out@.len() == w,
                flattened(out@) == edges@.take(from as int),
                from == if w * chunk < len {
                    w * chunk
                } else {
                    len as int
                },
                chunk * nr_workers >= len,
                forall|v: int| 0 <= v < w ==> (#[trigger] out@[v])@.len() <= chunk,
            decreases nr_workers - w,
        {
            let upto: usize = if len - from < chunk {
                len
            } else {
                from + chunk
            };
            let mut list: Vec<usize> = Vec::new();
            let mut i: usize = from;
            while i < upto
                invariant
                    from <= i <= upto <= len,
                    len == edges@.len(),
                    list@ == edges@.subrange(from as int, i as int),
                decreases upto - i,
            {
                list.push(edges[i]);
                proof {
                    assert(edges@.subrange(from as int, i + 1) =~= edges@.subrange(
                        from as int,
                        i as int,
                    ).push(edges@[i as int]));
                }
                i += 1;
            }
            proof {
                assert(out@.push(list).drop_last() =~= out@);
                assert(edges@.take(from as int) + edges@.subrange(from as int, upto as int)
                    =~= edges@.take(upto as int));
                assert((w + 1) * chunk == w * chunk + chunk) by (nonlinear_arith);
            }
            out.push(list);
            from = upto;
            w += 1;
        }
        proof {
            assert(nr_workers * chunk == chunk * nr_workers) by (nonlinear_arith);
            assert(from == len);
            assert(edges@.take(len as int) =~= edges@);
        }
        out
    }

    /// Builds what a worker is sent for the channels `edges`: the
    /// descriptors of those channels that carry flows, and the flows that
    /// the descriptors name, each once.
    ///
    /// There is nothing to send where a channel carries flows but cannot be
    /// described as a bottleneck.
    #[verifier::rlimit(50)]
    pub fn worker_params(&self, link_sim: (String, String), edges: &Vec<usize>) -> (r: Result<
        WorkerParams,
        SimNetworkError,
    >)
        requires
            self.wf(),
        ensures
            match r {
                Ok(params) => {
                    &&& params.link_sim == link_sim
                    &&& params.descs@.map_values(|d: LinkSimDesc| d.edge) == edges@.filter(
                        self.loaded(),
                    )
                    &&& forall|d: int|
                        0 <= d < params.descs@.len() ==> self.is_descriptor(
                            (#[trigger] params.descs@[d]).edge as int,
                            params.descs@[d],
                        )
                    &&& params.flows@.map_values(|f: Flow| f.id.0)
                        == crate::network::desc::first_occurrences(named_flows(params.descs@))
                    &&& forall|i: int|
                        0 <= i < params.flows@.len() ==> self.flows@.contains_key(
                            (#[trigger] params.flows@[i]).id.0,
                        )
                    &&& forall|e: int|
                        0 <= e < edges@.len() && (#[trigger] edges@[e]) < self.topology.channels@.len()
                            && self.topology.channels@[edges@[e] as int].flows@.len() > 0
                            ==> self.describable(edges@[e] as int)
                },
                Err(SimNetworkError::LinkSim(LinkSimError::Other(why))) => why@ == NO_BOTTLENECK@
                    && exists|e: int|
                    0 <= e < edges@.len() && (#[trigger] edges@[e]) < self.topology.channels@.len()
                        && self.topology.channels@[edges@[e] as int].flows@.len() > 0
                        && !self.describable(edges@[e] as int),
                Err(_) => false,
            },
    {
        let mut descs: Vec<LinkSimDesc> = Vec::new();
        let mut seen: FxHashSet<usize> = fx_set_new();
        let mut flows: Vec<Flow> = Vec::new();
        let mut e: usize = 0;
        proof {
            assert(flows@.map_values(|f: Flow| f.id.0) =~= Seq::<usize>::empty());
            assert(flows@.map_values(|f: Flow| f.id.0).to_set() =~= Set::<usize>::empty());
            assert(descs@.map_values(|d: LinkSimDesc| d.edge) =~= edges@.take(0).filter(
                self.loaded(),
            ));
        }
        while e < edges.len()
            invariant
                e <= edges@.len(),
                self.wf(),
                descs@.map_values(|d: LinkSimDesc| d.edge) == edges@.take(e as int).filter(
                    self.loaded(),
                ),
                forall|d: int|
                    0 <= d < descs@.len() ==> self.is_descriptor(
                        (#[trigger] descs@[d]).edge as int,
                        descs@[d],
                    ),
                flows@.map_values(|f: Flow| f.id.0) == crate::network::desc::first_occurrences(
                    named_flows(descs@),
                ),
                seen@ == flows@.map_values(|f: Flow| f.id.0).to_set(),
                forall|i: int|
                    0 <= i < flows@.len() ==> self.flows@.contains_key((#[trigger] flows@[i]).id.0),
                forall|k: int|
                    0 <= k < e && (#[trigger] edges@[k]) < self.topology.channels@.len()
                        && self.topology.channels@[edges@[k] as int].flows@.len() > 0
                        ==> self.describable(edges@[k] as int),
            decreases edges@.len() - e,
        {
            let edge = edges[e];
            proof {
                reveal(Seq::filter);
                assert(edges@.take(e + 1).drop_last() =~= edges@.take(e as int));
            }
            if edge < self.topology.channels.len() && self.topology.channels[edge].nr_flows() > 0 {
                if !self.can_describe(edge) {
                    return Err(
                        SimNetworkError::LinkSim(
                            LinkSimError::Other(NO_BOTTLENECK.to_owned()),
                        ),
                    );
                }
                let desc = match self.link_sim_desc(edge) {
                    Some(desc) => desc,
                    None => {
                        return Err(SimNetworkError::LinkSim(LinkSimError::UnknownEdge(edge)));
                    },
                };
                let ghost named_before = named_flows(descs@);
                let ghost ids = desc.flows@.map_values(|id: FlowId| id.0);
                let mut i: usize = 0;
                proof {
                    assert(named_before + ids.take(0) =~= named_before);
                }
                while i < desc.flows.len()
                    invariant
                        i <= desc.flows@.len(),
                        self.wf(),
                        edge < self.topology.channels@.len(),
                        desc.flows@ == self.topology.channels@[edge as int].flows@,
                        ids == desc.flows@.map_values(|id: FlowId| id.0),
                        flows@.map_values(|f: Flow| f.id.0)
                            == crate::network::desc::first_occurrences(
                            named_before + ids.take(i as int),
                        ),
                        seen@ == flows@.map_values(|f: Flow| f.id.0).to_set(),
                        forall|j: int|
                            0 <= j < flows@.len() ==> self.flows@.contains_key(
                                (#[trigger] flows@[j]).id.0,
                            ),
                    decreases desc.flows@.len() - i,
                {
                    let id = desc.flows[i];
                    let ghost listed = flows@.map_values(|f: Flow| f.id.0);
                    proof {
                        self.lemma_flows_known(edge as int, i as int);
                        self.lemma_flow_ids(id.0);
                        let now = named_before + ids.take(i + 1);
                        assert(now.drop_last() =~= named_before + ids.take(i as int));
                        assert(now.last() == id.0);
                    }
                    if fx_set_insert(&mut seen, id.0) {
                        match self.flows.get(&id.0) {
                            Some(flow) => {
                                flows.push(*flow);
                            },
                            None => {},
                        }
                        proof {
                            assert(flows@.map_values(|f: Flow| f.id.0) =~= listed.push(id.0));
                            crate::network::types::lemma_push_to_set(listed, id.0);
                        }
                    } else {
                        proof {
                            assert(seen@ =~= listed.to_set());
                        }
                    }
                    i += 1;
                }
                proof {
                    assert(ids.take(i as int) =~= ids);
                    assert(descs@.push(desc).drop_last() =~= descs@);
                    assert(descs@.push(desc).map_values(|d: LinkSimDesc| d.edge)
                        =~= descs@.map_values(|d: LinkSimDesc| d.edge).push(edge));
                }
                descs.push(desc);
            }
            e += 1;
        }
        proof {
            assert(edges@.take(e as int) =~= edges@);
        }
        Ok(WorkerParams { link_sim, descs, flows })
    }

    /// The flow that the network holds under an identifier carries that
    /// identifier.
    pub proof fn lemma_flow_ids(&self, id: usize)
        requires
            self.wf(),
            self.flows@.contains_key(id),
        ensures
            self.flows@[id].id.0 == id,
    {
        lemma_by_id_ids(self.workload@, id);
    }
}

/// The flow that stands under an identifier carries that identifier.
pub proof fn lemma_by_id_ids(flows: Seq<Flow>, id: usize)
    requires
        crate::network::sim::flows_by_id(flows).contains_key(id),
    ensures
        crate::network::sim::flows_by_id(flows)[id].id.0 == id,
    decreases flows.len(),
{
    if flows.len() > 0 {
        if flows.last().id.0 != id {
            lemma_by_id_ids(flows.drop_last(), id);
        }
    }
}

/// Whether every flow that a descriptor names is among the flows that were
/// sent.
pub open spec fn complete(params: WorkerParams) -> bool {
    forall|d: int, i: int|
        0 <= d < params.descs@.len() && 0 <= i < params.descs@[d].flows@.len()
            ==> params.flows@.map_values(|f: Flow| f.id.0).contains(
            (#[trigger] params.descs@[d].flows@[i]).0,
        )
}

/// Returns true if every flow that a descriptor names is among the flows
/// that were sent.
pub fn is_complete(params: &WorkerParams) -> (r: bool)
    ensures
        r == complete(*params),
{
    let mut sent: FxHashSet<usize> = fx_set_new();
    let ghost ids = params.flows@.map_values(|f: Flow| f.id.0);
    let mut i: usize = 0;
    proof {
        assert(ids.take(0).to_set() =~= Set::<usize>::empty());
    }
    while i < params.flows.len()
        invariant
            i <= params.flows@.len(),
            ids == params.flows@.map_values(|f: Flow| f.id.0),
            sent@ == ids.take(i as int).to_set(),
        decreases params.flows@.len() - i,
    {
        let _ = fx_set_insert(&mut sent, params.flows[i].id.0);
        proof {
            assert(ids.take(i + 1) =~= ids.take(i as int).push(ids[i as int]));
            crate::network::types::lemma_push_to_set(ids.take(i as int), ids[i as int]);
        }
        i += 1;
    }
    proof {
        assert(ids.take(i as int) =~= ids);
    }
    let mut d: usize = 0;
    while d < params.descs.len()
        invariant
            d <= params.descs@.len(),
            ids == params.flows@.map_values(|f: Flow| f.id.0),
            sent@ == ids.to_set(),
            forall|a: int, b: int|
                0 <= a < d && 0 <= b < params.descs@[a].flows@.len() ==> ids.contains(
                    (#[trigger] params.descs@[a].flows@[b]).0,
                ),
        decreases params.descs@.len() - d,
    {
        let desc = &params.descs[d];
        let mut k: usize = 0;
        while k < desc.flows.len()
            invariant
                k <= desc.flows@.len(),
                d < params.descs@.len(),
                *desc == params.descs@[d as int],
                ids == params.flows@.map_values(|f: Flow| f.id.0),
                sent@ == ids.to_set(),
                forall|b: int| 0 <= b < k ==> ids.contains((#[trigger] desc.flows@[b]).0),
            decreases desc.flows@.len() - k,
        {
            if !crate::fxhash::fx_set_contains(&sent, desc.flows[k].0) {
                proof {
                    assert(!ids.contains(params.descs@[d as int].flows@[k as int].0));
                }
                return false;
            }
            k += 1;
        }
        d += 1;
    }
    true
}

/// The flows by their identifiers, as a worker looks them up: of two flows
/// with one identifier the later.
pub open spec fn latest_by_id(flows: Seq<Flow>) -> Map<usize, Flow>
    decreases flows.len(),
{
    if flows.len() == 0 {
        Map::empty()
    } else {
        latest_by_id(flows.drop_last()).insert(flows.last().id.0, flows.last())
    }
}

/// Every flow can be looked up by its identifier.
pub proof fn lemma_latest_known(flows: Seq<Flow>, j: int)
    requires
        0 <= j < flows.len(),
    ensures
        latest_by_id(flows).contains_key(flows[j].id.0),
    decreases flows.len(),
{
    if j < flows.len() - 1 {
        lemma_latest_known(flows.drop_last(), j);
    }
}

/// What a worker hands to the simulator for the descriptor `desc`: the
/// descriptor, with the flows that were sent in place of their identifiers.
pub open spec fn spec_for(desc: LinkSimDesc, flows: Seq<Flow>) -> SpecView {
    SpecView {
        edge: desc.edge,
        bottleneck: desc.bottleneck,
        other_links: desc.other_links@,
        nodes: desc.nodes@,
        flows: desc.flows@.map_values(|id: FlowId| latest_by_id(flows)[id.0]),
    }
}

/// Runs the simulations that a worker was sent, one after the other, and
/// returns the records of each with the index of its channel. The first
/// simulation that fails ends the run with its error.
///
/// Every flow that a descriptor names must be among the flows that were
/// sent.
#[verifier::rlimit(50)]
pub fn simulate_chunk<S: LinkSim>(params: WorkerParams, sim: &S) -> (r: Result<
    Vec<(usize, Vec<FctRecord>)>,
    LinkSimError,
>)
    requires
        complete(params),
    ensures
        match r {
            Ok(out) => out@.len() == params.descs@.len() && forall|d: int|
                0 <= d < out@.len() ==> (#[trigger] out@[d]).0 == params.descs@[d].edge
                    && sim.answers(spec_for(params.descs@[d], params.flows@), Ok(out@[d].1@)),
            Err(e) => exists|d: int|
                0 <= d < params.descs@.len() && sim.answers(
                    spec_for(#[trigger] params.descs@[d], params.flows@),
                    Err(e),
                ),
        },
{
    let mut id2flow: HashMap<usize, Flow> = HashMap::new();
    let mut i: usize = 0;
    let ghost sent = params.flows@.map_values(|f: Flow| f.id.0);
    while i < params.flows.len()
        invariant
            i <= params.flows@.len(),
            id2flow@ == latest_by_id(params.flows@.take(i as int)),
        decreases params.flows@.len() - i,
    {
        let flow = params.flows[i];
        id2flow.insert(flow.id.0, flow);
        proof {
            assert(params.flows@.take(i + 1).drop_last() =~= params.flows@.take(i as int));
        }
        i += 1;
    }
    proof {
        assert(params.flows@.take(i as int) =~= params.flows@);
        assert forall|j: int| 0 <= j < sent.len() implies id2flow@.contains_key(
            #[trigger] sent[j],
        ) by {
            lemma_latest_known(params.flows@, j);
        }
    }
    let mut out: Vec<(usize, Vec<FctRecord>)> = Vec::new();
    let WorkerParams { link_sim, descs, flows: all } = params;
    let mut descs = descs;
    let ghost given = descs@;
    let mut taken: Vec<LinkSimDesc> = Vec::new();
    // Take the descriptors out of their list, last first.
    while descs.len() > 0
        invariant
            given == params.descs@,
            descs@.len() + taken@.len() == given.len(),
            descs@ == given.take(descs@.len() as int),
            forall|k: int|
                0 <= k < taken@.len() ==> (#[trigger] taken@[k]) == given[given.len() - 1 - k],
        decreases descs@.len(),
    {
        match descs.pop() {
            Some(desc) => {
                taken.push(desc);
            },
            None => {},
        }
    }
    let n = taken.len();
    while taken.len() > 0
        invariant
            n == given.len(),
            given == params.descs@,
            all@ == params.flows@,
            sent == all@.map_values(|f: Flow| f.id.0),
            id2flow@ == latest_by_id(all@),
            taken@.len() <= n,
            out@.len() == n - taken@.len(),
            forall|k: int|
                0 <= k < taken@.len() ==> (#[trigger] taken@[k]) == given[given.len() - 1 - k],
            forall|d: int|
                0 <= d < out@.len() ==> (#[trigger] out@[d]).0 == given[d].edge && sim.answers(
                    spec_for(given[d], all@),
                    Ok(out@[d].1@),
                ),
            forall|j: int| 0 <= j < sent.len() ==> id2flow@.contains_key(#[trigger] sent[j]),
            forall|d: int, i: int|
                0 <= d < given.len() && 0 <= i < given[d].flows@.len() ==> sent.contains(
                    (#[trigger] given[d].flows@[i]).0,
                ),
        decreases taken@.len(),
    {
        let ghost d = out@.len() as int;
        let desc = match taken.pop() {
            Some(desc) => desc,
            None => {
                return Ok(out);
            },
        };
        proof {
            assert(desc == given[d]);
        }
        let mut flows: Vec<Flow> = Vec::new();
        let mut i: usize = 0;
        while i < desc.flows.len()
            invariant
                i <= desc.flows@.len(),
                0 <= d < given.len(),
                desc == given[d],
                id2flow@ == latest_by_id(all@),
                flows@ == desc.flows@.take(i as int).map_values(
                    |id: FlowId| latest_by_id(all@)[id.0],
                ),
                forall|j: int| 0 <= j < sent.len() ==> id2flow@.contains_key(#[trigger] sent[j]),
                forall|d: int, i: int|
                    0 <= d < given.len() && 0 <= i < given[d].flows@.len() ==> sent.contains(
                        (#[trigger] given[d].flows@[i]).0,
                    ),
            decreases desc.flows@.len() - i,
        {
            let id = desc.flows[i];
            let ghost before = flows@;
            proof {
                assert(sent.contains(given[d].flows@[i as int].0));
                let j = choose|j: int| 0 <= j < sent.len() && sent[j] == id.0;
                assert(id2flow@.contains_key(sent[j]));
            }
            match id2flow.get(&id.0) {
                Some(flow) => {
                    flows.push(*flow);
                },
                None => {},
            }
            proof {
                assert(flows@ == before.push(latest_by_id(all@)[id.0]));
                assert(flows@ =~= desc.flows@.take(i + 1).map_values(
                    |id: FlowId| latest_by_id(all@)[id.0],
                ));
            }
            i += 1;
        }
        proof {
            assert(desc.flows@.take(i as int) =~= desc.flows@);
        }
        let edge = desc.edge;
        let spec = LinkSimSpec {
            edge: desc.edge,
            bottleneck: desc.bottleneck,
            other_links: desc.other_links,
            nodes: desc.nodes,
            flows,
        };
        proof {
            assert(spec@ == spec_for(given[d], all@));
        }
        match sim.simulate(spec) {
            Ok(data) => {
                out.push((edge, data));
            },
            Err(e) => {
                return Err(e);
            },
        }
    }
    Ok(out)
}

} // verus!
