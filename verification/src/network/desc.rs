//! The descriptor of a link-level simulation: a channel of a network as the
//! bottleneck, together with what stands for the rest of the network.

use crate::fxhash::{fx_set_contains, fx_set_insert, fx_set_items, fx_set_new};
use crate::linksim::{
    LinkSim, LinkSimDesc, LinkSimError, LinkSimLink, LinkSimNode, LinkSimNodeKind, SpecView,
};
use crate::network::delay::channels_along;
use crate::network::sim::{span_of, SimNetwork};
use crate::network::topology::{basic_of, reverse_of, Topology};
use crate::network::types::{
    BasicChannel, Channel, FctRecord, Flow, FlowChannel, FlowId, Link, Node, NodeId, NodeKind, Path,
};
use crate::network::{edge_indices_between, hashed_path, routes_fit};
use crate::routing::RoutingAlgo;
use crate::units::{div_round, saturate, BitsPerSec, Nanosecs, NANOS_PER_SEC};
use crate::utils::{min_bandwidth, prop_delay};
use rustc_hash::FxHashSet;
use vstd::prelude::*;

verus! {

/// The factor by which the links towards the destinations are widened, so
/// that nothing but the bottleneck holds flows up.
pub const FAT_LINK_FACTOR: u64 = 10;

/// The elements of `ids` in the order in which they first occur, each once.
pub open spec fn first_occurrences(ids: Seq<usize>) -> Seq<usize>
    decreases ids.len(),
{
    if ids.len() == 0 {
        Seq::empty()
    } else {
        let rest = first_occurrences(ids.drop_last());
        if rest.contains(ids.last()) {
            rest
        } else {
            rest.push(ids.last())
        }
    }
}

/// The first occurrences of a list hold the elements of the list.
pub proof fn lemma_first_occurrences(ids: Seq<usize>)
    ensures
        first_occurrences(ids).to_set() == ids.to_set(),
        first_occurrences(ids).no_duplicates(),
    decreases ids.len(),
{
    if ids.len() > 0 {
        let rest = ids.drop_last();
        lemma_first_occurrences(rest);
        let out = first_occurrences(ids);
        let before = first_occurrences(rest);
        assert(ids =~= rest.push(ids.last()));
        crate::network::types::lemma_push_to_set(rest, ids.last());
        if before.contains(ids.last()) {
            assert(before.to_set().contains(ids.last()));
            assert(ids.to_set() =~= rest.to_set());
        } else {
            crate::network::types::lemma_push_to_set(before, ids.last());
            assert forall|i: int, j: int| 0 <= i < j < out.len() implies out[i] != out[j] by {
                if j == before.len() {
                    assert(before.contains(before[i]));
                }
            }
        }
    } else {
        assert(first_occurrences(ids).to_set() =~= ids.to_set());
    }
}

/// Returns the elements of `ids` in the order in which they first occur,
/// each once.
pub fn unique_ids(ids: &Vec<usize>) -> (r: Vec<usize>)
    ensures
        r@ == first_occurrences(ids@),
{
    let mut seen: FxHashSet<usize> = fx_set_new();
    let mut out: Vec<usize> = Vec::new();
    let mut i: usize = 0;
    proof {
        assert(ids@.take(0) =~= Seq::<usize>::empty());
        assert(out@.to_set() =~= Set::<usize>::empty());
    }
    while i < ids.len()
        invariant
            i <= ids@.len(),
            out@ == first_occurrences(ids@.take(i as int)),
            seen@ == out@.to_set(),
        decreases ids@.len() - i,
    {
        let id = ids[i];
        proof {
            assert(ids@.take(i + 1).drop_last() =~= ids@.take(i as int));
            assert(ids@.take(i + 1).last() == id);
        }
        if fx_set_insert(&mut seen, id) {
            proof {
                crate::network::types::lemma_push_to_set(out@, id);
            }
            out.push(id);
        } else {
            proof {
                assert(seen@ =~= out@.to_set());
            }
        }
        i += 1;
    }
    proof {
        assert(ids@.take(i as int) =~= ids@);
    }
    out
}

/// Whether `list` lists the elements of `set`, each once.
pub open spec fn lists(list: Seq<usize>, set: Set<usize>) -> bool {
    list.no_duplicates() && list.to_set() == set
}

/// What is left of `bandwidth` when `used` is taken from it.
pub open spec fn remaining(bandwidth: u64, used: u64) -> u64 {
    if used >= bandwidth {
        0
    } else {
        (bandwidth - used) as u64
    }
}

/// A list of the elements of a set that holds `b` has one entry exactly if
/// the set holds nothing but `b`.
pub proof fn lemma_lists_single(list: Seq<usize>, set: Set<usize>, b: usize)
    requires
        lists(list, set),
        set.contains(b),
    ensures
        list.len() == 1 <==> forall|id: usize| set.contains(id) ==> id == b,
{
    assert(list.contains(b));
    let k = choose|k: int| 0 <= k < list.len() && list[k] == b;
    if list.len() == 1 {
        assert forall|id: usize| set.contains(id) implies id == b by {
            assert(list.contains(id));
            let j = choose|j: int| 0 <= j < list.len() && list[j] == id;
        }
    }
    if forall|id: usize| set.contains(id) ==> id == b {
        if list.len() > 1 {
            assert(list.contains(list[0]) && list.contains(list[1]));
            assert(set.contains(list[0]) && set.contains(list[1]));
        }
    }
}

impl<R: RoutingAlgo> SimNetwork<R> {
    /// The rate at which acknowledgements cross the channel `e`, in bits per
    /// second: the bytes of the acknowledgements of the flows on the channel
    /// that runs against it, over the time between the first and the last
    /// start of those flows, rounded to the nearest; zero where that time is
    /// zero.
    pub open spec fn spec_ack_rate(&self, e: int) -> u64 {
        let back = self.topology.channels@[reverse_of(e)];
        let duration = span_of(back.assigned@);
        if duration == 0 {
            0
        } else {
            saturate(div_round(back.nr_ack_bytes.0 * 8 * NANOS_PER_SEC, duration))
        }
    }

    /// The channels of the way from `a` to `b` on which the first hop is
    /// taken at every node.
    pub open spec fn first_path(&self, a: NodeId, b: NodeId) -> Seq<usize> {
        hashed_path(&self.topology, &self.routes, a, b, 0)
    }

    /// The link that stands for the way from the source `s` to the
    /// bottleneck: it has the bandwidth of the first channel of the way,
    /// less the rate of the acknowledgements on that channel, and the delay
    /// of the whole way.
    pub open spec fn source_link(&self, s: usize, bsrc: NodeId) -> LinkSimLink {
        let path = self.first_path(NodeId(s), bsrc);
        let first = self.topology.basics()[path[0] as int];
        LinkSimLink {
            from: NodeId(s),
            to: bsrc,
            total_bandwidth: first.bandwidth,
            available_bandwidth: BitsPerSec(
                remaining(first.bandwidth.0, self.spec_ack_rate(path[0] as int)),
            ),
            delay: Nanosecs(saturate(prop_delay(channels_along(self.topology.basics(), path)))),
        }
    }

    /// The link that stands for the way from the bottleneck to the
    /// destination `d`: it has ten times the smallest bandwidth of the way,
    /// so that it holds no flow up, and the delay of the whole way.
    pub open spec fn dest_link(&self, bdst: NodeId, d: usize) -> LinkSimLink {
        let path = self.first_path(bdst, NodeId(d));
        let fat = BitsPerSec(
            saturate(
                min_bandwidth(channels_along(self.topology.basics(), path)) * FAT_LINK_FACTOR,
            ),
        );
        LinkSimLink {
            from: bdst,
            to: NodeId(d),
            total_bandwidth: fat,
            available_bandwidth: fat,
            delay: Nanosecs(saturate(prop_delay(channels_along(self.topology.basics(), path)))),
        }
    }

    /// The channel `e` itself as a link: its bandwidth less the rate of the
    /// acknowledgements on it.
    pub open spec fn bottleneck_link(&self, e: int) -> LinkSimLink {
        let chan = self.topology.basics()[e];
        LinkSimLink {
            from: chan.src,
            to: chan.dst,
            total_bandwidth: chan.bandwidth,
            available_bandwidth: BitsPerSec(remaining(chan.bandwidth.0, self.spec_ack_rate(e))),
            delay: chan.delay,
        }
    }

    /// The node `id` as a node of a link-level simulation: a switch stays a
    /// switch, a host that sends is a source, and any other host is a
    /// destination.
    pub open spec fn desc_node(&self, id: usize, srcs: Set<usize>) -> LinkSimNode {
        LinkSimNode {
            id: NodeId(id),
            kind: if self.topology.nodes@[id as int].kind == NodeKind::Switch {
                LinkSimNodeKind::Switch
            } else if srcs.contains(id) {
                LinkSimNodeKind::Source
            } else {
                LinkSimNodeKind::Destination
            },
        }
    }

    /// The nodes of the descriptor of the channel `e`: the sources, the
    /// destinations and the two ends of the channel, each once.
    pub open spec fn desc_nodes(&self, e: int, srcs: Seq<usize>, dsts: Seq<usize>) -> Seq<
        LinkSimNode,
    > {
        let chan = self.topology.basics()[e];
        first_occurrences(srcs + dsts + seq![chan.src.0, chan.dst.0]).map_values(
            |id: usize| self.desc_node(id, srcs.to_set()),
        )
    }

    /// The links of the descriptor of the channel `e` other than the
    /// bottleneck: one from every source, unless the channel starts at a
    /// source, and one to every destination, unless the channel ends at a
    /// destination.
    pub open spec fn desc_links(&self, e: int, srcs: Seq<usize>, dsts: Seq<usize>) -> Seq<
        LinkSimLink,
    > {
        let chan = self.topology.basics()[e];
        (if srcs.contains(chan.src.0) {
            Seq::empty()
        } else {
            srcs.map_values(|s: usize| self.source_link(s, chan.src))
        }) + (if dsts.contains(chan.dst.0) {
            Seq::empty()
        } else {
            dsts.map_values(|d: usize| self.dest_link(chan.dst, d))
        })
    }

    /// Whether `desc` describes the channel `e`, with the sources and
    /// destinations in the order of `srcs` and `dsts`.
    pub open spec fn describes(
        &self,
        e: int,
        srcs: Seq<usize>,
        dsts: Seq<usize>,
        desc: LinkSimDesc,
    ) -> bool {
        &&& desc.edge == e
        &&& desc.bottleneck == self.bottleneck_link(e)
        &&& desc.other_links@ == self.desc_links(e, srcs, dsts)
        &&& desc.nodes@ == self.desc_nodes(e, srcs, dsts)
        &&& desc.flows@ == self.topology.channels@[e].flows@
    }

    /// Whether `desc` is the descriptor of the channel `e`, with the sources
    /// and destinations of the channel listed in some order, each once.
    pub open spec fn is_descriptor(&self, e: int, desc: LinkSimDesc) -> bool {
        exists|srcs: Seq<usize>, dsts: Seq<usize>|
            #![trigger self.describes(e, srcs, dsts, desc)]
            {
                &&& lists(srcs, self.topology.channels@[e].flow_srcs@)
                &&& lists(dsts, self.topology.channels@[e].flow_dsts@)
                &&& self.describes(e, srcs, dsts, desc)
            }
    }

    /// The flows of the channel `e`, each as the network holds it under its
    /// identifier.
    pub open spec fn flows_of(&self, e: int) -> Seq<Flow> {
        self.topology.channels@[e].flows@.map_values(|id: FlowId| self.flows@[id.0])
    }

    /// Whether `spec` is what a simulator is handed for the channel `e`: a
    /// descriptor of the channel, with the flows of the channel in place of
    /// their identifiers.
    pub open spec fn specifies(&self, e: int, spec: SpecView) -> bool {
        exists|desc: LinkSimDesc|
            #![trigger self.is_descriptor(e, desc)]
            {
                &&& self.is_descriptor(e, desc)
                &&& spec.edge == desc.edge
                &&& spec.bottleneck == desc.bottleneck
                &&& spec.other_links == desc.other_links@
                &&& spec.nodes == desc.nodes@
                &&& spec.flows == self.flows_of(e)
            }
    }

    /// Whether the simulator `sim` may answer with `out` when it is handed
    /// the channel `e`.
    pub open spec fn answered<S: LinkSim>(
        &self,
        sim: &S,
        e: int,
        out: Result<Seq<FctRecord>, LinkSimError>,
    ) -> bool {
        exists|spec: SpecView|
            #![trigger sim.answers(spec, out)]
            self.specifies(e, spec) && sim.answers(spec, out)
    }

    /// Whether the channel `e` can be described as a bottleneck:
    /// no node both sends and receives on it; where it starts at a source,
    /// that is its only source, and where it ends at a destination, that is
    /// its only destination; a way leads from every other source to it and
    /// from it to every other destination; and an end of the channel that is
    /// a host sends or receives on it.
    pub open spec fn describable(&self, e: int) -> bool {
        let chan = self.topology.channels@[e];
        let srcs = chan.flow_srcs@;
        let dsts = chan.flow_dsts@;
        let n = self.topology.nodes@.len();
        &&& forall|id: usize| srcs.contains(id) || dsts.contains(id) ==> id < n
        &&& forall|id: usize| !(srcs.contains(id) && dsts.contains(id))
        &&& srcs.contains(chan.src.0) ==> forall|id: usize| srcs.contains(id) ==> id == chan.src.0
        &&& dsts.contains(chan.dst.0) ==> forall|id: usize| dsts.contains(id) ==> id == chan.dst.0
        &&& !srcs.contains(chan.src.0) ==> forall|id: usize|
            srcs.contains(id) ==> #[trigger] self.first_path(NodeId(id), chan.src).len() > 0
        &&& !dsts.contains(chan.dst.0) ==> forall|id: usize|
            dsts.contains(id) ==> #[trigger] self.first_path(chan.dst, NodeId(id)).len() > 0
        &&& self.topology.nodes@[chan.src.0 as int].kind == NodeKind::Host ==> srcs.contains(
            chan.src.0,
        ) || dsts.contains(chan.src.0)
        &&& self.topology.nodes@[chan.dst.0 as int].kind == NodeKind::Host ==> srcs.contains(
            chan.dst.0,
        ) || dsts.contains(chan.dst.0)
    }

    /// The link `link` as it stands in a simulation of the whole network
    /// around the channel `e`: the link of the channel as it is, and every
    /// other link widened by the factor of the fat links.
    pub open spec fn widened(&self, e: int, link: Link) -> Link {
        if link.spec_connects(self.topology.channels@[e].src, self.topology.channels@[e].dst) {
            link
        } else {
            Link {
                a: link.a,
                b: link.b,
                bandwidth: BitsPerSec(saturate(link.bandwidth.0 * FAT_LINK_FACTOR)),
                delay: link.delay,
            }
        }
    }

    /// Returns the links of the network for a simulation of the whole
    /// network around the channel `edge`, in which nothing but that channel
    /// holds flows up: every link but that of the channel is widened. `None`
    /// if there is no such channel.
    pub fn links_around(&self, edge: usize) -> (r: Option<Vec<Link>>)
        ensures
            match r {
                Some(links) => {
                    &&& edge < self.topology.channels@.len()
                    &&& links@.len() == self.topology.links@.len()
                    &&& forall|i: int|
                        0 <= i < links@.len() ==> #[trigger] links@[i] == self.widened(
                            edge as int,
                            self.topology.links@[i],
                        )
                },
                None => edge >= self.topology.channels@.len(),
            },
    {
        if edge >= self.topology.channels.len() {
            return None;
        }
        let src = self.topology.channels[edge].src;
        let dst = self.topology.channels[edge].dst;
        let mut links: Vec<Link> = Vec::new();
        let mut i: usize = 0;
        while i < self.topology.links.len()
            invariant
                i <= self.topology.links@.len(),
                edge < self.topology.channels@.len(),
                src == self.topology.channels@[edge as int].src,
                dst == self.topology.channels@[edge as int].dst,
                links@.len() == i,
                forall|j: int|
                    0 <= j < i ==> #[trigger] links@[j] == self.widened(
                        edge as int,
                        self.topology.links@[j],
                    ),
            decreases self.topology.links@.len() - i,
        {
            let link = self.topology.links[i];
            if link.connects(src, dst) {
                links.push(link);
            } else {
                links.push(
                    Link {
                        a: link.a,
                        b: link.b,
                        bandwidth: link.bandwidth.scale_by(FAT_LINK_FACTOR),
                        delay: link.delay,
                    },
                );
            }
            i += 1;
        }
        Some(links)
    }

    /// Returns the rate of the acknowledgements on the channel `eidx`, or
    /// `None` if there is no such channel.
    #[verifier::rlimit(50)]
    pub fn ack_rate_of(&self, eidx: usize) -> (r: Option<BitsPerSec>)
        requires
            self.wf(),
        ensures
            match r {
                Some(rate) => eidx < self.topology.channels@.len() && rate.0 == self.spec_ack_rate(
                    eidx as int,
                ),
                None => eidx >= self.topology.channels@.len(),
            },
    {
        if eidx >= self.topology.channels.len() {
            return None;
        }
        let chan = &self.topology.channels[eidx];
        proof {
            self.topology.lemma_edges();
            let edges = self.topology.edges();
            assert(edges[reverse_of(eidx as int)] == (edges[eidx as int].1, edges[eidx as int].0));
            assert(edges[eidx as int] == (chan.src.0, chan.dst.0));
            assert(self.topology.basics()[eidx as int] == basic_of(*chan));
        }
        let back = match self.topology.find_edge(chan.dst(), chan.src()) {
            Some(back) => back,
            None => {
                proof {
                    let edges = self.topology.edges();
                    assert(crate::routing::adjacent(edges, chan.dst.0, chan.src.0)) by {
                        assert(edges[reverse_of(eidx as int)] == (chan.dst.0, chan.src.0));
                    }
                }
                return Some(BitsPerSec(0));
            },
        };
        proof {
            let edges = self.topology.edges();
            let f = reverse_of(eidx as int);
            if back < f {
                assert(edges[back as int] != edges[f]);
            } else if f < back {
                assert(edges[f] != edges[back as int]);
            }
            assert(back == f);
        }
        let back_chan = &self.topology.channels[back];
        let duration = back_chan.duration();
        if duration.0 == 0 {
            return Some(BitsPerSec(0));
        }
        let bits: u128 = (back_chan.nr_ack_bytes.0 as u128) * 8;
        let num: u128 = bits * 1_000_000_000;
        let den: u128 = duration.0 as u128;
        let q: u128 = (2 * num + den) / (2 * den);
        if q > u64::MAX as u128 {
            Some(BitsPerSec(u64::MAX))
        } else {
            Some(BitsPerSec(q as u64))
        }
    }

    /// Returns the way from `src` to `dst` on which, at every node, the hop
    /// at position `hash` modulo the number of hops is taken; at zero, the
    /// first hop.
    pub fn path(&self, src: NodeId, dst: NodeId, hash: u64) -> (r: Path<FlowChannel>)
        requires
            self.wf(),
        ensures
            r.inner@.len() == hashed_path(&self.topology, &self.routes, src, dst, hash).len(),
            forall|i: int|
                0 <= i < r.inner@.len() ==> {
                    &&& (#[trigger] r.inner@[i]).0 == hashed_path(
                        &self.topology,
                        &self.routes,
                        src,
                        dst,
                        hash,
                    )[i]
                    &&& r.inner@[i].0 < self.topology.channels@.len()
                    &&& *r.inner@[i].1 == self.topology.channels@[r.inner@[i].0 as int]
                },
    {
        let edges = edge_indices_between(&self.topology, &self.routes, src, dst, hash);
        proof {
            crate::network::sim::lemma_path_in_range(
                &self.topology,
                &self.routes,
                src,
                dst,
                hash,
            );
        }
        let mut channels: Vec<(usize, &FlowChannel)> = Vec::new();
        let mut i: usize = 0;
        while i < edges.len()
            invariant
                i <= edges@.len(),
                forall|j: int| 0 <= j < edges@.len() ==> (#[trigger] edges@[j]) < self.topology.channels@.len(),
                channels@.len() == i,
                forall|j: int|
                    0 <= j < i ==> (#[trigger] channels@[j]).0 == edges@[j] && *channels@[j].1
                        == self.topology.channels@[edges@[j] as int],
            decreases edges@.len() - i,
        {
            channels.push((edges[i], &self.topology.channels[edges[i]]));
            i += 1;
        }
        Path::new(channels)
    }

    /// Returns true if the channel `edge` can be described as a bottleneck.
    #[verifier::rlimit(50)]
    pub fn can_describe(&self, edge: usize) -> (r: bool)
        requires
            self.wf(),
            edge < self.topology.channels@.len(),
        ensures
            r == self.describable(edge as int),
    {
        let chan = &self.topology.channels[edge];
        let n = self.topology.nodes.len();
        let srcs = fx_set_items(&chan.flow_srcs);
        let dsts = fx_set_items(&chan.flow_dsts);
        let (bsrc, bdst) = (chan.src(), chan.dst());
        proof {
            self.topology.lemma_edges();
            assert(self.topology.edges()[edge as int] == (bsrc.0, bdst.0));
        }
        // Every source and destination is a node, and none is both.
        let mut i: usize = 0;
        while i < srcs.len()
            invariant
                i <= srcs@.len(),
                lists(srcs@, chan.flow_srcs@),
                *chan == self.topology.channels@[edge as int],
                n == self.topology.nodes@.len(),
                forall|j: int|
                    0 <= j < i ==> (#[trigger] srcs@[j]) < n && !chan.flow_dsts@.contains(srcs@[j]),
            decreases srcs@.len() - i,
        {
            if srcs[i] >= n || fx_set_contains(&chan.flow_dsts, srcs[i]) {
                proof {
                    assert(srcs@.contains(srcs@[i as int]));
                    assert(chan.flow_srcs@.contains(srcs@[i as int]));
                }
                return false;
            }
            i += 1;
        }
        let mut i: usize = 0;
        while i < dsts.len()
            invariant
                i <= dsts@.len(),
                lists(dsts@, chan.flow_dsts@),
                *chan == self.topology.channels@[edge as int],
                n == self.topology.nodes@.len(),
                forall|j: int| 0 <= j < i ==> (#[trigger] dsts@[j]) < n,
            decreases dsts@.len() - i,
        {
            if dsts[i] >= n {
                proof {
                    assert(dsts@.contains(dsts@[i as int]));
                    assert(chan.flow_dsts@.contains(dsts@[i as int]));
                }
                return false;
            }
            i += 1;
        }
        proof {
            assert forall|id: usize|
                chan.flow_srcs@.contains(id) || chan.flow_dsts@.contains(id) implies id < n by {
                if chan.flow_srcs@.contains(id) {
                    assert(srcs@.contains(id));
                    let j = choose|j: int| 0 <= j < srcs@.len() && srcs@[j] == id;
                    assert(srcs@[j] < n);
                } else {
                    assert(dsts@.contains(id));
                    let j = choose|j: int| 0 <= j < dsts@.len() && dsts@[j] == id;
                    assert(dsts@[j] < n);
                }
            }
            assert forall|id: usize|
                !(chan.flow_srcs@.contains(id) && chan.flow_dsts@.contains(id)) by {
                if chan.flow_srcs@.contains(id) {
                    assert(srcs@.contains(id));
                    let j = choose|j: int| 0 <= j < srcs@.len() && srcs@[j] == id;
                    assert(!chan.flow_dsts@.contains(srcs@[j]));
                }
            }
        }
        // The sources.
        if fx_set_contains(&chan.flow_srcs, bsrc.0) {
            if srcs.len() != 1 {
                proof {
                    lemma_lists_single(srcs@, chan.flow_srcs@, bsrc.0);
                }
                return false;
            }
            proof {
                lemma_lists_single(srcs@, chan.flow_srcs@, bsrc.0);
            }
        } else {
            let mut i: usize = 0;
            while i < srcs.len()
                invariant
                    i <= srcs@.len(),
                    self.wf(),
                    lists(srcs@, chan.flow_srcs@),
                    *chan == self.topology.channels@[edge as int],
                    bsrc == chan.src,
                    !chan.flow_srcs@.contains(bsrc.0),
                    forall|j: int|
                        0 <= j < i ==> self.first_path(NodeId(#[trigger] srcs@[j]), bsrc).len() > 0,
                decreases srcs@.len() - i,
            {
                let path = edge_indices_between(
                    &self.topology,
                    &self.routes,
                    NodeId(srcs[i]),
                    bsrc,
                    0,
                );
                if path.len() == 0 {
                    proof {
                        assert(srcs@.contains(srcs@[i as int]));
                        assert(chan.flow_srcs@.contains(srcs@[i as int]));
                    }
                    return false;
                }
                i += 1;
            }
            proof {
                assert forall|id: usize| chan.flow_srcs@.contains(id) implies #[trigger] self.first_path(
                    NodeId(id),
                    chan.src,
                ).len() > 0 by {
                    assert(srcs@.contains(id));
                    let j = choose|j: int| 0 <= j < srcs@.len() && srcs@[j] == id;
                    assert(self.first_path(NodeId(srcs@[j]), bsrc).len() > 0);
                }
            }
        }
        // The destinations.
        if fx_set_contains(&chan.flow_dsts, bdst.0) {
            if dsts.len() != 1 {
                proof {
                    lemma_lists_single(dsts@, chan.flow_dsts@, bdst.0);
                }
                return false;
            }
            proof {
                lemma_lists_single(dsts@, chan.flow_dsts@, bdst.0);
            }
        } else {
            let mut i: usize = 0;
            while i < dsts.len()
                invariant
                    i <= dsts@.len(),
                    self.wf(),
                    lists(dsts@, chan.flow_dsts@),
                    *chan == self.topology.channels@[edge as int],
                    bdst == chan.dst,
                    !chan.flow_dsts@.contains(bdst.0),
                    forall|j: int|
                        0 <= j < i ==> self.first_path(bdst, NodeId(#[trigger] dsts@[j])).len() > 0,
                decreases dsts@.len() - i,
            {
                let path = edge_indices_between(
                    &self.topology,
                    &self.routes,
                    bdst,
                    NodeId(dsts[i]),
                    0,
                );
                if path.len() == 0 {
                    proof {
                        assert(dsts@.contains(dsts@[i as int]));
                        assert(chan.flow_dsts@.contains(dsts@[i as int]));
                    }
                    return false;
                }
                i += 1;
            }
            proof {
                assert forall|id: usize| chan.flow_dsts@.contains(id) implies #[trigger] self.first_path(
                    chan.dst,
                    NodeId(id),
                ).len() > 0 by {
                    assert(dsts@.contains(id));
                    let j = choose|j: int| 0 <= j < dsts@.len() && dsts@[j] == id;
                    assert(self.first_path(bdst, NodeId(dsts@[j])).len() > 0);
                }
            }
        }
        // The ends of the channel.
        if let NodeKind::Host = self.topology.nodes[bsrc.0].kind {
            if !fx_set_contains(&chan.flow_srcs, bsrc.0) && !fx_set_contains(
                &chan.flow_dsts,
                bsrc.0,
            ) {
                return false;
            }
        }
        if let NodeKind::Host = self.topology.nodes[bdst.0].kind {
            if !fx_set_contains(&chan.flow_srcs, bdst.0) && !fx_set_contains(
                &chan.flow_dsts,
                bdst.0,
            ) {
                return false;
            }
        }
        true
    }

    /// Describes the channel `edge`, which carries flows, as the bottleneck
    /// of a link-level simulation, with the sources in the order of `srcs`
    /// and the destinations in the order of `dsts`.
    ///
    /// The descriptor names the channel as its bottleneck, with the
    /// bandwidth that acknowledgements leave free. Every source is joined to
    /// the bottleneck by one link that stands for its way there, and the
    /// bottleneck is joined to every destination by one link that is wide
    /// enough to hold nothing up.
    #[verifier::rlimit(50)]
    pub fn describe(&self, edge: usize, srcs: &Vec<usize>, dsts: &Vec<usize>) -> (r: LinkSimDesc)
        requires
            self.wf(),
            edge < self.topology.channels@.len(),
            self.describable(edge as int),
            lists(srcs@, self.topology.channels@[edge as int].flow_srcs@),
            lists(dsts@, self.topology.channels@[edge as int].flow_dsts@),
        ensures
            self.describes(edge as int, srcs@, dsts@, r),
    {
        let chan = &self.topology.channels[edge];
        let (bsrc, bdst) = (chan.src(), chan.dst());
        let ghost basics = self.topology.basics();
        proof {
            self.topology.lemma_edges();
            assert(self.topology.edges()[edge as int] == (bsrc.0, bdst.0));
            assert(basics[edge as int] == basic_of(*chan));
        }
        // The nodes.
        let mut ids: Vec<usize> = Vec::new();
        let mut i: usize = 0;
        while i < srcs.len()
            invariant
                i <= srcs@.len(),
                ids@ == srcs@.take(i as int),
            decreases srcs@.len() - i,
        {
            ids.push(srcs[i]);
            proof {
                assert(srcs@.take(i + 1) =~= srcs@.take(i as int).push(srcs@[i as int]));
            }
            i += 1;
        }
        let mut i: usize = 0;
        proof {
            assert(srcs@.take(srcs@.len() as int) =~= srcs@);
            assert(ids@ =~= srcs@ + dsts@.take(0));
        }
        while i < dsts.len()
            invariant
                i <= dsts@.len(),
                ids@ == srcs@ + dsts@.take(i as int),
            decreases dsts@.len() - i,
        {
            ids.push(dsts[i]);
            proof {
                assert(dsts@.take(i + 1) =~= dsts@.take(i as int).push(dsts@[i as int]));
                assert(ids@ =~= srcs@ + dsts@.take(i + 1));
            }
            i += 1;
        }
        ids.push(bsrc.0);
        ids.push(bdst.0);
        proof {
            assert(dsts@.take(dsts@.len() as int) =~= dsts@);
            assert(ids@ =~= srcs@ + dsts@ + seq![bsrc.0, bdst.0]);
        }
        let ghost all = ids@;
        let ids = unique_ids(&ids);
        proof {
            lemma_first_occurrences(all);
            assert forall|j: int| 0 <= j < ids@.len() implies (#[trigger] ids@[j])
                < self.topology.nodes@.len() by {
                assert(ids@.contains(ids@[j]));
                assert(ids@.to_set().contains(ids@[j]));
                assert(all.to_set().contains(ids@[j]));
                assert(all.contains(ids@[j]));
                let k = choose|k: int| 0 <= k < all.len() && all[k] == ids@[j];
                if k < srcs@.len() {
                    assert(all[k] == srcs@[k]);
                    assert(srcs@.contains(all[k]));
                    assert(chan.flow_srcs@.contains(all[k]));
                } else if k < srcs@.len() + dsts@.len() {
                    assert(all[k] == dsts@[k - srcs@.len()]);
                    assert(dsts@.contains(all[k]));
                    assert(chan.flow_dsts@.contains(all[k]));
                } else {
                    assert(all[k] == bsrc.0 || all[k] == bdst.0);
                    assert(self.topology.edges()[edge as int].0 < self.topology.nodes@.len());
                }
            }
        }
        let mut nodes: Vec<LinkSimNode> = Vec::new();
        let mut i: usize = 0;
        while i < ids.len()
            invariant
                i <= ids@.len(),
                edge < self.topology.channels@.len(),
                *chan == self.topology.channels@[edge as int],
                lists(srcs@, chan.flow_srcs@),
                forall|j: int| 0 <= j < ids@.len() ==> (#[trigger] ids@[j]) < self.topology.nodes@.len(),
                nodes@ == ids@.take(i as int).map_values(
                    |id: usize| self.desc_node(id, srcs@.to_set()),
                ),
            decreases ids@.len() - i,
        {
            let id = ids[i];
            let kind = match self.topology.nodes[id].kind {
                NodeKind::Switch => LinkSimNodeKind::Switch,
                NodeKind::Host => if fx_set_contains(&chan.flow_srcs, id) {
                    LinkSimNodeKind::Source
                } else {
                    LinkSimNodeKind::Destination
                },
            };
            nodes.push(LinkSimNode { id: NodeId(id), kind });
            proof {
                assert(ids@.take(i + 1) =~= ids@.take(i as int).push(id));
                assert(nodes@ =~= ids@.take(i + 1).map_values(
                    |id: usize| self.desc_node(id, srcs@.to_set()),
                ));
            }
            i += 1;
        }
        proof {
            assert(ids@.take(i as int) =~= ids@);
        }
        // The links from the sources.
        let mut other_links: Vec<LinkSimLink> = Vec::new();
        if !fx_set_contains(&chan.flow_srcs, bsrc.0) {
            let mut i: usize = 0;
            while i < srcs.len()
                invariant
                    i <= srcs@.len(),
                    self.wf(),
                    edge < self.topology.channels@.len(),
                    self.describable(edge as int),
                    *chan == self.topology.channels@[edge as int],
                    bsrc == chan.src,
                    basics == self.topology.basics(),
                    lists(srcs@, chan.flow_srcs@),
                    !chan.flow_srcs@.contains(bsrc.0),
                    other_links@ == srcs@.take(i as int).map_values(
                        |s: usize| self.source_link(s, bsrc),
                    ),
                decreases srcs@.len() - i,
            {
                let src = srcs[i];
                let path = edge_indices_between(
                    &self.topology,
                    &self.routes,
                    NodeId(src),
                    bsrc,
                    0,
                );
                proof {
                    assert(srcs@.contains(src));
                    assert(chan.flow_srcs@.contains(src));
                    assert(self.first_path(NodeId(src), chan.src).len() > 0);
                    crate::network::sim::lemma_path_in_range(
                        &self.topology,
                        &self.routes,
                        NodeId(src),
                        bsrc,
                        0,
                    );
                    assert(path@[0] < self.topology.channels@.len());
                    assert(basics[path@[0] as int] == basic_of(
                        self.topology.channels@[path@[0] as int],
                    ));
                }
                let first = &self.topology.channels[path[0]];
                let ack_rate = match self.ack_rate_of(path[0]) {
                    Some(rate) => rate,
                    None => BitsPerSec(0),
                };
                let bandwidth = first.bandwidth();
                let link = LinkSimLink {
                    from: NodeId(src),
                    to: bsrc,
                    total_bandwidth: bandwidth,
                    available_bandwidth: BitsPerSec(bandwidth.0.saturating_sub(ack_rate.0)),
                    delay: self.delay_along(&path),
                };
                other_links.push(link);
                proof {
                    assert(srcs@.take(i + 1) =~= srcs@.take(i as int).push(src));
                    assert(other_links@ =~= srcs@.take(i + 1).map_values(
                        |s: usize| self.source_link(s, bsrc),
                    ));
                }
                i += 1;
            }
            proof {
                assert(srcs@.take(i as int) =~= srcs@);
            }
        }
        let ghost from_sources = other_links@;
        // The links to the destinations.
        if !fx_set_contains(&chan.flow_dsts, bdst.0) {
            let mut i: usize = 0;
            proof {
                assert(other_links@ =~= from_sources + dsts@.take(0).map_values(
                    |d: usize| self.dest_link(bdst, d),
                ));
            }
            while i < dsts.len()
                invariant
                    i <= dsts@.len(),
                    self.wf(),
                    edge < self.topology.channels@.len(),
                    self.describable(edge as int),
                    *chan == self.topology.channels@[edge as int],
                    bdst == chan.dst,
                    basics == self.topology.basics(),
                    lists(dsts@, chan.flow_dsts@),
                    !chan.flow_dsts@.contains(bdst.0),
                    other_links@ == from_sources + dsts@.take(i as int).map_values(
                        |d: usize| self.dest_link(bdst, d),
                    ),
                decreases dsts@.len() - i,
            {
                let dst = dsts[i];
                let path = edge_indices_between(
                    &self.topology,
                    &self.routes,
                    bdst,
                    NodeId(dst),
                    0,
                );
                proof {
                    crate::network::sim::lemma_path_in_range(
                        &self.topology,
                        &self.routes,
                        bdst,
                        NodeId(dst),
                        0,
                    );
                }
                let fat = self.min_bandwidth_along(&path).scale_by(FAT_LINK_FACTOR);
                let link = LinkSimLink {
                    from: bdst,
                    to: NodeId(dst),
                    total_bandwidth: fat,
                    available_bandwidth: fat,
                    delay: self.delay_along(&path),
                };
                other_links.push(link);
                proof {
                    assert(dsts@.take(i + 1) =~= dsts@.take(i as int).push(dst));
                    assert(other_links@ =~= from_sources + dsts@.take(i + 1).map_values(
                        |d: usize| self.dest_link(bdst, d),
                    ));
                }
                i += 1;
            }
            proof {
                assert(dsts@.take(i as int) =~= dsts@);
            }
        }
        // The bottleneck itself.
        let ack_rate = match self.ack_rate_of(edge) {
            Some(rate) => rate,
            None => BitsPerSec(0),
        };
        let bandwidth = chan.bandwidth();
        let bottleneck = LinkSimLink {
            from: bsrc,
            to: bdst,
            total_bandwidth: bandwidth,
            available_bandwidth: BitsPerSec(bandwidth.0.saturating_sub(ack_rate.0)),
            delay: chan.delay(),
        };
        let desc = LinkSimDesc { edge, bottleneck, other_links, nodes, flows: chan.flow_ids() };
        proof {
            assert(srcs@.contains(bsrc.0) == chan.flow_srcs@.contains(bsrc.0));
            assert(dsts@.contains(bdst.0) == chan.flow_dsts@.contains(bdst.0));
            assert(desc.other_links@ =~= self.desc_links(edge as int, srcs@, dsts@));
        }
        desc
    }

    /// Returns the descriptor of a link-level simulation of the channel
    /// `edge`; `None` if there is no such channel or if it carries no flow.
    /// A channel that carries flows must be one that can be described.
    ///
    /// The sources and destinations are listed in the order in which the
    /// channel hands them out.
    pub fn link_sim_desc(&self, edge: usize) -> (r: Option<LinkSimDesc>)
        requires
            self.wf(),
            edge < self.topology.channels@.len() && self.topology.channels@[edge as int].flows@.len()
                > 0 ==> self.describable(edge as int),
        ensures
            r is None <==> edge >= self.topology.channels@.len()
                || self.topology.channels@[edge as int].flows@.len() == 0,
            r matches Some(desc) ==> self.is_descriptor(edge as int, desc),
    {
        if edge >= self.topology.channels.len() {
            return None;
        }
        let chan = &self.topology.channels[edge];
        if chan.nr_flows() == 0 {
            return None;
        }
        let srcs = fx_set_items(&chan.flow_srcs);
        let dsts = fx_set_items(&chan.flow_dsts);
        let desc = self.describe(edge, &srcs, &dsts);
        proof {
            assert(lists(srcs@, self.topology.channels@[edge as int].flow_srcs@));
            assert(lists(dsts@, self.topology.channels@[edge as int].flow_dsts@));
            assert(self.describes(edge as int, srcs@, dsts@, desc));
        }
        Some(desc)
    }

    /// The propagation delay along the channels `path`, as far as 64 bits
    /// hold it.
    fn delay_along(&self, path: &Vec<usize>) -> (r: Nanosecs)
        requires
            forall|i: int| 0 <= i < path@.len() ==> (#[trigger] path@[i]) < self.topology.channels@.len(),
        ensures
            r.0 == saturate(prop_delay(channels_along(self.topology.basics(), path@))),
    {
        let ghost basics = self.topology.basics();
        let mut sum: u64 = 0;
        let mut i: usize = 0;
        proof {
            assert(channels_along(basics, path@.take(0)) =~= Seq::<BasicChannel>::empty());
        }
        while i < path.len()
            invariant
                i <= path@.len(),
                basics == self.topology.basics(),
                forall|j: int|
                    0 <= j < path@.len() ==> (#[trigger] path@[j]) < self.topology.channels@.len(),
                sum == saturate(prop_delay(channels_along(basics, path@.take(i as int)))),
                0 <= prop_delay(channels_along(basics, path@.take(i as int))),
            decreases path@.len() - i,
        {
            let d = self.topology.channels[path[i]].delay();
            proof {
                let now = channels_along(basics, path@.take(i + 1));
                assert(now.drop_last() =~= channels_along(basics, path@.take(i as int)));
                assert(now.last() == basics[path@[i as int] as int]);
            }
            sum = sum.saturating_add(d.0);
            i += 1;
        }
        proof {
            assert(path@.take(i as int) =~= path@);
        }
        Nanosecs(sum)
    }

    /// The smallest bandwidth along the channels `path`.
    fn min_bandwidth_along(&self, path: &Vec<usize>) -> (r: BitsPerSec)
        requires
            forall|i: int| 0 <= i < path@.len() ==> (#[trigger] path@[i]) < self.topology.channels@.len(),
        ensures
            r.0 == min_bandwidth(channels_along(self.topology.basics(), path@)),
    {
        let ghost basics = self.topology.basics();
        let mut min: u64 = u64::MAX;
        let mut i: usize = 0;
        proof {
            assert(channels_along(basics, path@.take(0)) =~= Seq::<BasicChannel>::empty());
        }
        while i < path.len()
            invariant
                i <= path@.len(),
                basics == self.topology.basics(),
                forall|j: int|
                    0 <= j < path@.len() ==> (#[trigger] path@[j]) < self.topology.channels@.len(),
                min == min_bandwidth(channels_along(basics, path@.take(i as int))),
            decreases path@.len() - i,
        {
            let bw = self.topology.channels[path[i]].bandwidth();
            proof {
                let now = channels_along(basics, path@.take(i + 1));
                assert(now.drop_last() =~= channels_along(basics, path@.take(i as int)));
                assert(now.last() == basics[path@[i as int] as int]);
            }
            if bw.0 < min {
                min = bw.0;
            }
            i += 1;
        }
        proof {
            assert(path@.take(i as int) =~= path@);
        }
        BitsPerSec(min)
    }
}

} // verus!
